use vstd::prelude::*;
use vstd::std_specs::iter::IteratorSpec;

verus! {

/// The pieces of `s` between newline characters, in order: `n` newlines
/// give `n + 1` pieces, some of which may be empty.
pub open spec fn newline_pieces(s: Seq<char>) -> Seq<Seq<char>>
    decreases s.len(),
{
    if s.len() == 0 {
        seq![Seq::<char>::empty()]
    } else {
        let p = newline_pieces(s.drop_last());
        if s.last() == '\n' {
            p.push(Seq::<char>::empty())
        } else {
            p.update(p.len() - 1, p.last().push(s.last()))
        }
    }
}

/// A line without the carriage return that ends it, if any.
pub open spec fn strip_cr(l: Seq<char>) -> Seq<char> {
    if l.len() > 0 && l.last() == '\r' {
        l.drop_last()
    } else {
        l
    }
}

/// The lines of `s`: the newline pieces, without an empty last piece, and
/// each piece that a newline ends without its trailing carriage return.
pub open spec fn lines_of(s: Seq<char>) -> Seq<Seq<char>> {
    let p = newline_pieces(s);
    let n = if p.last().len() == 0 {
        p.len() - 1
    } else {
        p.len() as int
    };
    Seq::new(n as nat, |i: int| if i < p.len() - 1 { strip_cr(p[i]) } else { p[i] })
}

proof fn lemma_pieces_len(s: Seq<char>)
    ensures
        newline_pieces(s).len() >= 1,
    decreases s.len(),
{
    if s.len() > 0 {
        lemma_pieces_len(s.drop_last());
    }
}

/// Relies on `String: FromIterator<&char>`: the string holds the given
/// characters in order.
#[verifier::external_body]
fn string_of(c: &[char]) -> (r: String)
    ensures
        r@ == c@,
{
    c.iter().collect()
}

/// The characters of `s` in order, read one by one from `str::chars`.
pub(crate) fn chars_of(s: &str) -> (r: Vec<char>)
    ensures
        r@ == s@,
{
    broadcast use vstd::string::axiom_spec_iter, vstd::string::next_postcondition;

    let mut it = s.chars();
    let mut out: Vec<char> = Vec::new();
    loop
        invariant
            it.obeys_prophetic_iter_laws(),
            it.decrease() is Some,
            out@ + it.remaining() == s@,
        ensures
            out@ == s@,
        decreases it.decrease()->0,
    {
        let ghost before = it.remaining();
        match it.next() {
            Some(c) => {
                out.push(c);
                proof {
                    assert(out@ + it.remaining() =~= s@) by {
                        assert(before =~= seq![c] + before.drop_first());
                    }
                }
            },
            None => {
                proof {
                    assert(out@ =~= s@);
                }
                break;
            },
        }
    }
    out
}

/// Splits `text` into its lines, as `str::lines` does: on `\n`, dropping a
/// `\r` just before it, with no empty line after a final newline.
pub fn split_lines(text: &str) -> (r: Vec<String>)
    ensures
        r@.len() == lines_of(text@).len(),
        forall|j: int| 0 <= j < r@.len() ==> #[trigger] r@[j]@ == lines_of(text@)[j],
{
    let chars = chars_of(text);
    let mut done: Vec<String> = Vec::new();
    let mut cur: Vec<char> = Vec::new();
    let mut i: usize = 0;
    proof {
        assert(chars@.take(0) =~= Seq::<char>::empty());
    }
    while i < chars.len()
        invariant
            i <= chars.len(),
            newline_pieces(chars@.take(i as int)).len() == done@.len() + 1,
            forall|j: int|
                0 <= j < done@.len() ==> #[trigger] done@[j]@ == strip_cr(
                    newline_pieces(chars@.take(i as int))[j],
                ),
            cur@ == newline_pieces(chars@.take(i as int)).last(),
        decreases chars.len() - i,
    {
        let ghost before = chars@.take(i as int);
        proof {
            assert(chars@.take(i + 1).drop_last() =~= before);
            lemma_pieces_len(before);
        }
        let c = chars[i];
        if c == '\n' {
            if cur.len() > 0 && cur[cur.len() - 1] == '\r' {
                cur.pop();
            }
            let line = string_of(cur.as_slice());
            done.push(line);
            cur = Vec::new();
        } else {
            cur.push(c);
        }
        i = i + 1;
        proof {
            let p = newline_pieces(chars@.take(i as int));
            assert forall|j: int| 0 <= j < done@.len() implies #[trigger] done@[j]@ == strip_cr(
                p[j],
            ) by {}
        }
    }
    proof {
        assert(chars@.take(i as int) =~= chars@);
        lemma_pieces_len(chars@);
    }
    if cur.len() > 0 {
        let line = string_of(cur.as_slice());
        done.push(line);
    }
    done
}

} // verus!
