use vstd::prelude::*;

verus! {

/// ISO 639-1 code of a supported language; each names one word list.
#[derive(Clone, Copy, Debug, PartialEq, Eq, Hash, PartialOrd, Ord)]
pub enum Lang {
    De,
    En,
    Es,
    Fr,
    Ja,
    Ru,
    Zh,
}

impl Lang {
    /// The two-letter ISO 639-1 code of the language.
    pub open spec fn code_spec(self) -> Seq<char> {
        match self {
            Lang::De => seq!['d', 'e'],
            Lang::En => seq!['e', 'n'],
            Lang::Es => seq!['e', 's'],
            Lang::Fr => seq!['f', 'r'],
            Lang::Ja => seq!['j', 'a'],
            Lang::Ru => seq!['r', 'u'],
            Lang::Zh => seq!['z', 'h'],
        }
    }

    /// The two-letter ISO 639-1 code of the language.
    pub fn code(self) -> (r: &'static str)
        ensures
            r@ == self.code_spec(),
    {
        proof {
            reveal_strlit("de");
            reveal_strlit("en");
            reveal_strlit("es");
            reveal_strlit("fr");
            reveal_strlit("ja");
            reveal_strlit("ru");
            reveal_strlit("zh");
        }
        match self {
            Lang::De => "de",
            Lang::En => "en",
            Lang::Es => "es",
            Lang::Fr => "fr",
            Lang::Ja => "ja",
            Lang::Ru => "ru",
            Lang::Zh => "zh",
        }
    }
}

} // verus!
