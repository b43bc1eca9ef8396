//! The store file format.
//!
//! A vault is written one alias per line: the escaped name, a tab, the
//! escaped command, a newline. [`lemma_parse_ser`] proves that parsing a
//! written store recovers exactly the entries that were written, which is
//! the serialization round-trip law: loading what was saved reproduces
//! the mapping.

use vstd::prelude::*;
use vstd::string::{StrSliceExecFns, StringExecFns};

use crate::escape::{esc, escape_field, lemma_esc_plain, lemma_unesc_esc, push_char, unesc,
    unescape_range};
use crate::vault::{map_of, Vault};

verus! {

/// Why a store could not be used. `Io` covers an unreadable or
/// unwritable store location; `Corrupt` a store file whose text is not
/// a valid serialized vault. Both are fatal; an absent alias is neither.
#[derive(Clone, Copy, Debug, PartialEq, Eq, Structural)]
pub enum StoreError {
    Io,
    Corrupt,
}

/// The first position of `c` in `s`, if any.
pub open spec fn find(s: Seq<char>, c: char) -> Option<int>
    decreases s.len(),
{
    if s.len() == 0 {
        None
    } else if s[0] == c {
        Some(0)
    } else {
        match find(s.drop_first(), c) {
            Some(i) => Some(i + 1),
            None => None,
        }
    }
}

/// `find` returns the first position of `c`, and `None` only when `c`
/// does not occur.
pub proof fn lemma_find_char(s: Seq<char>, c: char)
    ensures
        match find(s, c) {
            Some(i) => 0 <= i < s.len() && s[i] == c && (forall|j: int| 0 <= j < i ==> s[j] != c),
            None => forall|j: int| 0 <= j < s.len() ==> s[j] != c,
        },
    decreases s.len(),
{
    if s.len() == 0 {
    } else if s[0] == c {
    } else {
        lemma_find_char(s.drop_first(), c);
        match find(s.drop_first(), c) {
            Some(i) => {
                assert(s[i + 1] == s.drop_first()[i]);
                assert forall|j: int| 0 <= j < i + 1 implies s[j] != c by {
                    if j > 0 {
                        assert(s[j] == s.drop_first()[j - 1]);
                    }
                }
            },
            None => {
                assert forall|j: int| 0 <= j < s.len() implies s[j] != c by {
                    if j > 0 {
                        assert(s[j] == s.drop_first()[j - 1]);
                    }
                }
            },
        }
    }
}

/// Knowing the first occurrence pins `find` down.
pub proof fn lemma_find_is(s: Seq<char>, c: char, i: int)
    requires
        0 <= i < s.len(),
        s[i] == c,
        forall|j: int| 0 <= j < i ==> s[j] != c,
    ensures
        find(s, c) == Some(i),
{
    lemma_find_char(s, c);
    match find(s, c) {
        Some(k) => {
            if k < i {
                assert(s[k] != c);
            } else if i < k {
                assert(s[i] != c);
            }
        },
        None => {
            assert(s[i] != c);
        },
    }
}

/// Knowing that `c` does not occur pins `find` down.
pub proof fn lemma_find_none(s: Seq<char>, c: char)
    requires
        forall|j: int| 0 <= j < s.len() ==> s[j] != c,
    ensures
        find(s, c) is None,
{
    lemma_find_char(s, c);
    match find(s, c) {
        Some(k) => {
            assert(s[k] != c);
        },
        None => {},
    }
}

/// One stored line, without its terminating newline.
pub open spec fn ser_line(e: (Seq<char>, Seq<char>)) -> Seq<char> {
    esc(e.0) + seq!['\t'] + esc(e.1)
}

/// A whole store: one newline-terminated line per entry, in order.
pub open spec fn ser_doc(es: Seq<(Seq<char>, Seq<char>)>) -> Seq<char>
    decreases es.len(),
{
    if es.len() == 0 {
        Seq::empty()
    } else {
        ser_line(es[0]) + seq!['\n'] + ser_doc(es.drop_first())
    }
}

/// Reading one line back: split at the first tab, unescape both sides.
pub open spec fn parse_line(line: Seq<char>) -> Option<(Seq<char>, Seq<char>)> {
    match find(line, '\t') {
        None => None,
        Some(t) => match (unesc(line.take(t)), unesc(line.skip(t + 1))) {
            (Some(k), Some(v)) => Some((k, v)),
            _ => None,
        },
    }
}

/// Reading a whole store back: split at each newline, read each line.
/// Text after the last newline, a line without a tab, or an invalid
/// field makes the store invalid.
pub open spec fn parse_doc(s: Seq<char>) -> Option<Seq<(Seq<char>, Seq<char>)>>
    decreases s.len(),
{
    if s.len() == 0 {
        Some(Seq::empty())
    } else {
        match find(s, '\n') {
            None => None,
            Some(nl) => if 0 <= nl < s.len() {
                match (parse_line(s.take(nl)), parse_doc(s.skip(nl + 1))) {
                    (Some(e), Some(rest)) => Some(seq![e] + rest),
                    _ => None,
                }
            } else {
                None
            },
        }
    }
}

/// Serialization distributes over concatenation of entry sequences.
pub proof fn lemma_ser_doc_concat(a: Seq<(Seq<char>, Seq<char>)>, b: Seq<(Seq<char>, Seq<char>)>)
    ensures
        ser_doc(a + b) == ser_doc(a) + ser_doc(b),
    decreases a.len(),
{
    if a.len() == 0 {
        assert(a + b =~= b);
        assert(ser_doc(a) + ser_doc(b) =~= ser_doc(b));
    } else {
        lemma_ser_doc_concat(a.drop_first(), b);
        assert((a + b).drop_first() =~= a.drop_first() + b);
        assert((a + b)[0] == a[0]);
        assert(ser_line(a[0]) + seq!['\n'] + (ser_doc(a.drop_first()) + ser_doc(b)) =~= (ser_line(
            a[0],
        ) + seq!['\n'] + ser_doc(a.drop_first())) + ser_doc(b));
    }
}

/// The round-trip law: parsing a written store recovers exactly the
/// entries that were written, in order.
pub proof fn lemma_parse_ser(es: Seq<(Seq<char>, Seq<char>)>)
    ensures
        parse_doc(ser_doc(es)) == Some(es),
    decreases es.len(),
{
    if es.len() == 0 {
        assert(es =~= Seq::<(Seq<char>, Seq<char>)>::empty());
    } else {
        let e = es[0];
        let rest = es.drop_first();
        lemma_parse_ser(rest);
        lemma_esc_plain(e.0);
        lemma_esc_plain(e.1);
        lemma_unesc_esc(e.0);
        lemma_unesc_esc(e.1);
        let line = ser_line(e);
        let doc = ser_doc(es);
        assert(doc =~= line + seq!['\n'] + ser_doc(rest));
        assert forall|j: int| 0 <= j < line.len() implies line[j] != '\n' by {
            if j < esc(e.0).len() {
                assert(line[j] == esc(e.0)[j]);
            } else if j == esc(e.0).len() {
                assert(line[j] == '\t');
            } else {
                assert(line[j] == esc(e.1)[j - esc(e.0).len() - 1]);
            }
        }
        assert(doc[line.len() as int] == '\n');
        assert forall|j: int| 0 <= j < line.len() implies doc[j] == line[j] by {}
        lemma_find_is(doc, '\n', line.len() as int);
        assert(doc.take(line.len() as int) =~= line);
        assert(doc.skip(line.len() as int + 1) =~= ser_doc(rest));
        assert(line[esc(e.0).len() as int] == '\t');
        assert forall|j: int| 0 <= j < esc(e.0).len() implies line[j] != '\t' by {
            lemma_esc_plain(e.0);
            assert(line[j] == esc(e.0)[j]);
        }
        lemma_find_is(line, '\t', esc(e.0).len() as int);
        assert(line.take(esc(e.0).len() as int) =~= esc(e.0));
        assert(line.skip(esc(e.0).len() as int + 1) =~= esc(e.1));
        assert(parse_line(line) == Some((e.0, e.1)));
        assert(e == (e.0, e.1));
        assert(seq![e] + rest =~= es);
    }
}

/// Saving a vault and loading the result reproduces the vault's
/// mapping: the written text parses back to the very entries that were
/// written, and those entries describe the vault's own mapping.
pub proof fn lemma_save_load_identity(v: Vault)
    ensures
        parse_doc(ser_doc(v.entries_seq())) == Some(v.entries_seq()),
        map_of(v.entries_seq()) == v@,
{
    lemma_parse_ser(v.entries_seq());
    crate::vault::lemma_view_is_map_of(v);
}

/// Write a vault in its stored text form.
pub fn serialize_vault(v: &Vault) -> (r: String)
    ensures
        r@ == ser_doc(v.entries_seq()),
{
    let ps = v.pairs();
    let n = ps.len();
    let mut out = String::new();
    proof {
        assert(v.entries_seq().take(0) =~= Seq::<(Seq<char>, Seq<char>)>::empty());
    }
    for i in 0..n
        invariant
            n == ps@.len(),
            ps@.len() == v.entries_seq().len(),
            forall|j: int|
                0 <= j < n ==> ((#[trigger] ps@[j]).0@, ps@[j].1@) == v.entries_seq()[j],
            out@ == ser_doc(v.entries_seq().take(i as int)),
    {
        let ghost es = v.entries_seq();
        let ef = escape_field(ps[i].0.as_str());
        out.append(ef.as_str());
        push_char(&mut out, '\t');
        let ec = escape_field(ps[i].1.as_str());
        out.append(ec.as_str());
        push_char(&mut out, '\n');
        proof {
            let one = seq![es[i as int]];
            lemma_ser_doc_concat(es.take(i as int), one);
            assert(es.take(i as int + 1) =~= es.take(i as int) + one);
            assert(one.drop_first() =~= Seq::<(Seq<char>, Seq<char>)>::empty());
            assert(ser_doc(Seq::<(Seq<char>, Seq<char>)>::empty()) =~= Seq::<char>::empty());
            assert(one[0] == es[i as int]);
            assert(es[i as int].0 == ps@[i as int].0@);
            assert(es[i as int].1 == ps@[i as int].1@);
            assert(out@ =~= ser_doc(es.take(i as int)) + ser_doc(one));
        }
    }
    proof {
        assert(v.entries_seq().take(n as int) =~= v.entries_seq());
    }
    out
}

/// The first position of `c` between character positions `from` and
/// `to`, if any.
fn find_char_range(s: &str, from: usize, to: usize, c: char) -> (r: Option<usize>)
    requires
        from <= to <= s@.len(),
    ensures
        match r {
            Some(j) => from <= j < to && s@[j as int] == c && forall|k: int|
                from <= k < j ==> s@[k] != c,
            None => forall|k: int| from <= k < to ==> s@[k] != c,
        },
{
    let mut i: usize = from;
    while i < to
        invariant
            from <= i <= to <= s@.len(),
            forall|k: int| from <= k < i ==> s@[k] != c,
        decreases to - i,
    {
        if s.get_char(i) == c {
            return Some(i);
        }
        i = i + 1;
    }
    None
}

/// Read a vault back from its stored text form. Returns
/// `StoreError::Corrupt` exactly when the text is not a valid store;
/// when several lines carry the same name, the last one wins.
pub fn parse_vault(data: &str) -> (r: Result<Vault, StoreError>)
    ensures
        match parse_doc(data@) {
            Some(es) => r matches Ok(v) && v.wf() && v@ == map_of(es),
            None => r == Err::<Vault, StoreError>(StoreError::Corrupt),
        },
{
    let n = data.unicode_len();
    let mut v = Vault::new();
    let mut i: usize = 0;
    let ghost mut done: Seq<(Seq<char>, Seq<char>)> = Seq::empty();
    proof {
        assert(data@.skip(0) =~= data@);
    }
    while i < n
        invariant
            i <= n,
            n == data@.len(),
            v.wf(),
            v@ == map_of(done),
            parse_doc(data@) == (match parse_doc(data@.skip(i as int)) {
                Some(rest) => Some(done + rest),
                None => None::<Seq<(Seq<char>, Seq<char>)>>,
            }),
        decreases n - i,
    {
        let ghost suf = data@.skip(i as int);
        let nl = match find_char_range(data, i, n, '\n') {
            Some(nl) => nl,
            None => {
                proof {
                    assert forall|j: int| 0 <= j < suf.len() implies suf[j] != '\n' by {
                        assert(suf[j] == data@[i + j]);
                    }
                    lemma_find_none(suf, '\n');
                }
                return Err(StoreError::Corrupt);
            },
        };
        let ghost line = suf.take(nl - i as int);
        proof {
            assert forall|j: int| 0 <= j < nl - i as int implies suf[j] != '\n' by {
                assert(suf[j] == data@[i + j]);
            }
            assert(suf[nl - i as int] == data@[nl as int]);
            lemma_find_is(suf, '\n', nl - i as int);
            assert(line =~= data@.subrange(i as int, nl as int));
            assert forall|j: int| 0 <= j < line.len() implies line[j] == data@[i + j] by {}
        }
        let t = match find_char_range(data, i, nl, '\t') {
            Some(t) => t,
            None => {
                proof {
                    assert forall|j: int| 0 <= j < line.len() implies line[j] != '\t' by {
                        assert(line[j] == data@[i + j]);
                    }
                    lemma_find_none(line, '\t');
                    assert(parse_line(line) is None);
                }
                return Err(StoreError::Corrupt);
            },
        };
        proof {
            assert forall|j: int| 0 <= j < t - i as int implies line[j] != '\t' by {
                assert(line[j] == data@[i + j]);
            }
            assert(line[t - i as int] == data@[t as int]);
            lemma_find_is(line, '\t', t - i as int);
            assert(line.take(t - i as int) =~= data@.subrange(i as int, t as int));
            assert(line.skip(t - i as int + 1) =~= data@.subrange(t as int + 1, nl as int));
        }
        let name = match unescape_range(data, i, t) {
            Some(name) => name,
            None => {
                proof {
                    assert(parse_line(line) is None);
                }
                return Err(StoreError::Corrupt);
            },
        };
        let command = match unescape_range(data, t + 1, nl) {
            Some(command) => command,
            None => {
                proof {
                    assert(parse_line(line) is None);
                }
                return Err(StoreError::Corrupt);
            },
        };
        proof {
            assert(parse_line(line) == Some((name@, command@)));
        }
        let ghost e = (name@, command@);
        v.add(name, command);
        proof {
            assert(suf.skip(nl - i as int + 1) =~= data@.skip(nl as int + 1));
            match parse_doc(data@.skip(nl as int + 1)) {
                Some(rest) => {
                    assert(parse_doc(suf) == Some(seq![e] + rest));
                    assert(done + (seq![e] + rest) =~= done.push(e) + rest);
                },
                None => {
                    assert(parse_doc(suf) is None);
                },
            }
            let old_done = done;
            done = done.push(e);
            assert(done.drop_last() =~= old_done);
            assert(done.last() == e);
            assert(map_of(done) == map_of(old_done).insert(e.0, e.1));
        }
        i = nl + 1;
    }
    proof {
        assert(data@.skip(i as int) =~= Seq::<char>::empty());
        assert(parse_doc(Seq::<char>::empty()) == Some(Seq::<(Seq<char>, Seq<char>)>::empty()));
        assert(done + Seq::<(Seq<char>, Seq<char>)>::empty() =~= done);
    }
    Ok(v)
}

} // verus!
