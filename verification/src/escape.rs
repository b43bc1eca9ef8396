//! Escaping of field text for the store file.
//!
//! The store file keeps one alias per line, with a tab between name and
//! command. So that arbitrary text can be stored, backslashes, tabs and
//! newlines inside a field are escaped; [`lemma_unesc_esc`] proves that
//! unescaping undoes escaping exactly.

use vstd::prelude::*;
use vstd::string::StrSliceExecFns;

verus! {

/// How one character is written inside a field.
pub open spec fn esc_char(c: char) -> Seq<char> {
    if c == '\\' {
        seq!['\\', '\\']
    } else if c == '\t' {
        seq!['\\', 't']
    } else if c == '\n' {
        seq!['\\', 'n']
    } else {
        seq![c]
    }
}

/// A field as it is written: each character escaped.
pub open spec fn esc(s: Seq<char>) -> Seq<char>
    decreases s.len(),
{
    if s.len() == 0 {
        Seq::empty()
    } else {
        esc_char(s[0]) + esc(s.drop_first())
    }
}

/// The character an escape pair `\x` stands for, if `\x` is a valid pair.
pub open spec fn unesc_char(c: char) -> Option<char> {
    if c == '\\' {
        Some('\\')
    } else if c == 't' {
        Some('\t')
    } else if c == 'n' {
        Some('\n')
    } else {
        None
    }
}

/// Reading a written field back. A dangling backslash, an unknown escape
/// pair, or a raw tab or newline makes the field invalid.
pub open spec fn unesc(s: Seq<char>) -> Option<Seq<char>>
    decreases s.len(),
{
    if s.len() == 0 {
        Some(Seq::empty())
    } else if s[0] == '\\' {
        if s.len() < 2 {
            None
        } else {
            match (unesc_char(s[1]), unesc(s.skip(2))) {
                (Some(c), Some(r)) => Some(seq![c] + r),
                _ => None,
            }
        }
    } else if s[0] == '\t' || s[0] == '\n' {
        None
    } else {
        match unesc(s.drop_first()) {
            Some(r) => Some(seq![s[0]] + r),
            None => None,
        }
    }
}

/// Free of raw tabs and newlines, so lines and fields can be split apart.
pub open spec fn plain(s: Seq<char>) -> bool {
    forall|i: int| 0 <= i < s.len() ==> s[i] != '\t' && s[i] != '\n'
}

/// Escaping distributes over concatenation.
pub proof fn lemma_esc_concat(a: Seq<char>, b: Seq<char>)
    ensures
        esc(a + b) == esc(a) + esc(b),
    decreases a.len(),
{
    if a.len() == 0 {
        assert(a + b =~= b);
        assert(esc(a) + esc(b) =~= esc(b));
    } else {
        lemma_esc_concat(a.drop_first(), b);
        assert((a + b).drop_first() =~= a.drop_first() + b);
        assert((a + b)[0] == a[0]);
        assert(esc_char(a[0]) + (esc(a.drop_first()) + esc(b)) =~= (esc_char(a[0]) + esc(
            a.drop_first(),
        )) + esc(b));
    }
}

/// An escaped field never contains a raw tab or newline.
pub proof fn lemma_esc_plain(s: Seq<char>)
    ensures
        plain(esc(s)),
    decreases s.len(),
{
    if s.len() == 0 {
    } else {
        lemma_esc_plain(s.drop_first());
        let head = esc_char(s[0]);
        assert forall|i: int| 0 <= i < esc(s).len() implies esc(s)[i] != '\t' && esc(s)[i]
            != '\n' by {
            if i < head.len() {
                assert(esc(s)[i] == head[i]);
            } else {
                assert(esc(s)[i] == esc(s.drop_first())[i - head.len()]);
            }
        }
    }
}

/// Unescaping undoes escaping: every field round-trips exactly.
pub proof fn lemma_unesc_esc(s: Seq<char>)
    ensures
        unesc(esc(s)) == Some(s),
    decreases s.len(),
{
    if s.len() == 0 {
        assert(s =~= Seq::<char>::empty());
    } else {
        let c = s[0];
        let rest = s.drop_first();
        lemma_unesc_esc(rest);
        let e = esc(s);
        if c == '\\' || c == '\t' || c == '\n' {
            assert(e[0] == '\\');
            assert(e[1] == esc_char(c)[1]);
            assert(e.skip(2) =~= esc(rest));
            assert(unesc_char(esc_char(c)[1]) == Some(c));
            assert(seq![c] + rest =~= s);
        } else {
            assert(e[0] == c);
            assert(e.drop_first() =~= esc(rest));
            assert(seq![c] + rest =~= s);
        }
    }
}

/// Relies on String::push: appends exactly the given character.
#[verifier::external_body]
pub(crate) fn push_char(s: &mut String, c: char)
    ensures
        final(s)@ == old(s)@.push(c),
{
    s.push(c);
}

/// Write a field in its escaped form.
pub fn escape_field(s: &str) -> (r: String)
    ensures
        r@ == esc(s@),
{
    let n = s.unicode_len();
    let mut out = String::new();
    for i in 0..n
        invariant
            n == s@.len(),
            out@ == esc(s@.take(i as int)),
    {
        let c = s.get_char(i);
        proof {
            lemma_esc_concat(s@.take(i as int), seq![c]);
            assert(s@.take(i as int + 1) =~= s@.take(i as int) + seq![c]);
            assert(seq![c].drop_first() =~= Seq::<char>::empty());
            assert(esc(Seq::<char>::empty()) =~= Seq::<char>::empty());
            assert(esc(seq![c]) == esc_char(c) + esc(Seq::<char>::empty()));
            assert(esc_char(c) + Seq::<char>::empty() =~= esc_char(c));
        }
        let ghost before = out@;
        if c == '\\' {
            push_char(&mut out, '\\');
            push_char(&mut out, '\\');
        } else if c == '\t' {
            push_char(&mut out, '\\');
            push_char(&mut out, 't');
        } else if c == '\n' {
            push_char(&mut out, '\\');
            push_char(&mut out, 'n');
        } else {
            push_char(&mut out, c);
        }
        proof {
            assert(out@ =~= before + esc_char(c));
        }
    }
    proof {
        assert(s@.take(n as int) =~= s@);
    }
    out
}

/// Read the escaped field between character positions `from` and `to`
/// back into its stored text; `None` when the region is not a validly
/// escaped field.
pub fn unescape_range(s: &str, from: usize, to: usize) -> (r: Option<String>)
    requires
        from <= to <= s@.len(),
    ensures
        match r {
            Some(out) => unesc(s@.subrange(from as int, to as int)) == Some(out@),
            None => unesc(s@.subrange(from as int, to as int)) is None,
        },
{
    let ghost full = s@.subrange(from as int, to as int);
    let mut out = String::new();
    let mut i: usize = from;
    while i < to
        invariant
            from <= i <= to <= s@.len(),
            unesc(full) == (match unesc(s@.subrange(i as int, to as int)) {
                Some(r) => Some(out@ + r),
                None => None::<Seq<char>>,
            }),
            full == s@.subrange(from as int, to as int),
        decreases to - i,
    {
        let ghost cur = s@.subrange(i as int, to as int);
        let c = s.get_char(i);
        proof {
            assert(cur[0] == c);
        }
        if c == '\\' {
            if i + 1 >= to {
                proof {
                    assert(cur.len() < 2);
                }
                return None;
            }
            let c2 = s.get_char(i + 1);
            proof {
                assert(cur[1] == c2);
                assert(cur.skip(2) =~= s@.subrange(i as int + 2, to as int));
            }
            let d: char = if c2 == '\\' {
                '\\'
            } else if c2 == 't' {
                '\t'
            } else if c2 == 'n' {
                '\n'
            } else {
                proof {
                    assert(unesc_char(c2) is None);
                }
                return None;
            };
            let ghost before = out@;
            push_char(&mut out, d);
            proof {
                assert(unesc_char(c2) == Some(d));
                match unesc(s@.subrange(i as int + 2, to as int)) {
                    Some(r) => {
                        assert(before + (seq![d] + r) =~= out@ + r);
                    },
                    None => {},
                }
            }
            i = i + 2;
        } else if c == '\t' || c == '\n' {
            return None;
        } else {
            let ghost before = out@;
            push_char(&mut out, c);
            proof {
                assert(cur.drop_first() =~= s@.subrange(i as int + 1, to as int));
                match unesc(s@.subrange(i as int + 1, to as int)) {
                    Some(r) => {
                        assert(before + (seq![c] + r) =~= out@ + r);
                    },
                    None => {},
                }
            }
            i = i + 1;
        }
    }
    proof {
        assert(s@.subrange(i as int, to as int) =~= Seq::<char>::empty());
        assert(out@ + Seq::<char>::empty() =~= out@);
    }
    Some(out)
}

} // verus!
