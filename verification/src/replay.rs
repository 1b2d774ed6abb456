use vstd::prelude::*;
use crate::codec::Rec;
use crate::codec::decode_rec;
use crate::codec::no_nl;

verus! {

/// Length of the prefix before the first newline; the whole length if there
/// is none.
pub open spec fn nl_pos(s: Seq<char>) -> nat
    decreases s.len(),
{
    if s.len() == 0 {
        0
    } else if s[0] == '\n' {
        0
    } else {
        1 + nl_pos(s.drop_first())
    }
}

pub proof fn lemma_nl_pos(s: Seq<char>)
    ensures
        nl_pos(s) <= s.len(),
        forall|i: int| 0 <= i < nl_pos(s) ==> s[i] != '\n',
        nl_pos(s) < s.len() ==> s[nl_pos(s) as int] == '\n',
    decreases s.len(),
{
    if s.len() == 0 {
    } else if s[0] == '\n' {
    } else {
        lemma_nl_pos(s.drop_first());
        assert forall|i: int| 0 <= i < nl_pos(s) implies s[i] != '\n' by {
            if i > 0 {
                assert(s[i] == s.drop_first()[i - 1]);
            }
        }
        if nl_pos(s) < s.len() {
            assert(s[nl_pos(s) as int] == s.drop_first()[nl_pos(s.drop_first()) as int]);
        }
    }
}

/// `nl_pos` is the only position that a first newline can have.
pub proof fn lemma_nl_pos_unique(s: Seq<char>, k: int)
    requires
        0 <= k <= s.len(),
        forall|i: int| 0 <= i < k ==> s[i] != '\n',
        k < s.len() ==> s[k] == '\n',
    ensures
        nl_pos(s) == k,
{
    lemma_nl_pos(s);
    if nl_pos(s) < k {
        assert(s[nl_pos(s) as int] == '\n');
    }
    if nl_pos(s) > k {
        assert(s[k] != '\n');
    }
}

/// The log content as its sequence of lines, each without its terminating
/// newline; `None` unless the content is a sequence of newline-terminated
/// lines.
pub open spec fn log_lines(s: Seq<char>) -> Option<Seq<Seq<char>>>
    decreases s.len(),
{
    if s.len() == 0 {
        Some(Seq::empty())
    } else {
        let p = nl_pos(s);
        if p < s.len() {
            match log_lines(s.subrange(p as int + 1, s.len() as int)) {
                Some(rest) => Some(seq![s.subrange(0, p as int)] + rest),
                None => None,
            }
        } else {
            None
        }
    }
}

/// Every line decodes to a record.
pub open spec fn lines_ok(lines: Seq<Seq<char>>) -> bool {
    forall|j: int| 0 <= j < lines.len() ==> decode_rec(#[trigger] lines[j]) is Some
}

/// Total size of the lines as log content, newline terminators included.
pub open spec fn lines_len(lines: Seq<Seq<char>>) -> nat
    decreases lines.len(),
{
    if lines.len() == 0 {
        0
    } else {
        lines_len(lines.drop_last()) + lines.last().len() + 1
    }
}

/// The offset at which line `j` begins.
pub open spec fn line_off(lines: Seq<Seq<char>>, j: int) -> nat {
    lines_len(lines.subrange(0, j))
}

/// Replaying the log: the key to value mapping that the records leave
/// behind. A `Put` establishes the key, a `Rm` withdraws it, anything else
/// changes nothing.
pub open spec fn replay_map(lines: Seq<Seq<char>>) -> Map<Seq<char>, Seq<char>>
    decreases lines.len(),
{
    if lines.len() == 0 {
        Map::empty()
    } else {
        let m = replay_map(lines.drop_last());
        match decode_rec(lines.last()) {
            Some(Rec::Put { key, value }) => m.insert(key, value),
            Some(Rec::Rm { key }) => m.remove(key),
            _ => m,
        }
    }
}

/// Replaying the log: the key to offset mapping, pointing each live key at
/// its most recent `Put` line.
pub open spec fn replay_index(lines: Seq<Seq<char>>) -> Map<Seq<char>, nat>
    decreases lines.len(),
{
    if lines.len() == 0 {
        Map::empty()
    } else {
        let m = replay_index(lines.drop_last());
        match decode_rec(lines.last()) {
            Some(Rec::Put { key, .. }) => m.insert(key, lines_len(lines.drop_last())),
            Some(Rec::Rm { key }) => m.remove(key),
            _ => m,
        }
    }
}

/// Splitting a concatenation: the lines of a log that continues a
/// well-formed prefix are the prefix's lines followed by the rest's.
pub proof fn lemma_log_lines_concat(a: Seq<char>, b: Seq<char>)
    requires
        log_lines(a) is Some,
    ensures
        log_lines(a + b) == match log_lines(b) {
            Some(lb) => Some(log_lines(a)->Some_0 + lb),
            None => None::<Seq<Seq<char>>>,
        },
    decreases a.len(),
{
    if a.len() == 0 {
        assert(a + b =~= b);
        assert(log_lines(a)->Some_0 =~= Seq::<Seq<char>>::empty());
        if log_lines(b) is Some {
            assert(log_lines(a)->Some_0 + log_lines(b)->Some_0 =~= log_lines(b)->Some_0);
        }
    } else {
        let p = nl_pos(a);
        lemma_nl_pos(a);
        let s = a + b;
        assert forall|i: int| 0 <= i < p implies s[i] != '\n' by {
            assert(s[i] == a[i]);
        }
        assert(s[p as int] == a[p as int]);
        lemma_nl_pos_unique(s, p as int);
        assert(s.subrange(0, p as int) =~= a.subrange(0, p as int));
        let a_rest = a.subrange(p as int + 1, a.len() as int);
        assert(s.subrange(p as int + 1, s.len() as int) =~= a_rest + b);
        lemma_log_lines_concat(a_rest, b);
        if log_lines(b) is Some {
            assert(seq![s.subrange(0, p as int)] + (log_lines(a_rest)->Some_0
                + log_lines(b)->Some_0) =~= (seq![a.subrange(0, p as int)]
                + log_lines(a_rest)->Some_0) + log_lines(b)->Some_0);
        }
    }
}

/// One well-formed line followed by a newline is a log of exactly that line.
pub proof fn lemma_log_lines_single(l: Seq<char>)
    requires
        no_nl(l),
    ensures
        log_lines(l + seq!['\n']) == Some(seq![l]),
{
    let s = l + seq!['\n'];
    assert forall|i: int| 0 <= i < l.len() implies s[i] != '\n' by {
        assert(s[i] == l[i]);
    }
    assert(s[l.len() as int] == '\n');
    lemma_nl_pos_unique(s, l.len() as int);
    assert(s.subrange(0, l.len() as int) =~= l);
    assert(s.subrange(l.len() as int + 1, s.len() as int) =~= Seq::<char>::empty());
    assert(log_lines(Seq::<char>::empty()) == Some(Seq::<Seq<char>>::empty()));
    assert(seq![l] + Seq::<Seq<char>>::empty() =~= seq![l]);
}

/// Appending one record line extends the parsed lines by that line.
pub proof fn lemma_log_lines_append(a: Seq<char>, l: Seq<char>)
    requires
        log_lines(a) is Some,
        no_nl(l),
    ensures
        log_lines(a + l + seq!['\n']) == Some(log_lines(a)->Some_0.push(l)),
{
    lemma_log_lines_single(l);
    lemma_log_lines_concat(a, l + seq!['\n']);
    assert(a + l + seq!['\n'] =~= a + (l + seq!['\n']));
    assert(log_lines(a)->Some_0 + seq![l] =~= log_lines(a)->Some_0.push(l));
}

/// No parsed line contains a newline.
pub proof fn lemma_log_lines_no_nl(s: Seq<char>)
    requires
        log_lines(s) is Some,
    ensures
        forall|j: int|
            0 <= j < log_lines(s)->Some_0.len() ==> no_nl(#[trigger] log_lines(s)->Some_0[j]),
    decreases s.len(),
{
    if s.len() == 0 {
    } else {
        let p = nl_pos(s);
        lemma_nl_pos(s);
        let rest = s.subrange(p as int + 1, s.len() as int);
        lemma_log_lines_no_nl(rest);
        let ls = log_lines(s)->Some_0;
        assert forall|j: int| 0 <= j < ls.len() implies no_nl(ls[j]) by {
            if j == 0 {
                assert(ls[0] == s.subrange(0, p as int));
                assert forall|i: int| 0 <= i < p implies s.subrange(0, p as int)[i] != '\n' by {
                    assert(s.subrange(0, p as int)[i] == s[i]);
                }
            } else {
                assert(ls[j] == log_lines(rest)->Some_0[j - 1]);
            }
        }
    }
}

pub proof fn lemma_lines_len_concat(x: Seq<Seq<char>>, y: Seq<Seq<char>>)
    ensures
        lines_len(x + y) == lines_len(x) + lines_len(y),
    decreases y.len(),
{
    if y.len() == 0 {
        assert(x + y =~= x);
    } else {
        assert((x + y).drop_last() =~= x + y.drop_last());
        assert((x + y).last() == y.last());
        lemma_lines_len_concat(x, y.drop_last());
    }
}

/// A well-formed log is exactly as long as its lines say.
pub proof fn lemma_lines_len(s: Seq<char>)
    requires
        log_lines(s) is Some,
    ensures
        lines_len(log_lines(s)->Some_0) == s.len(),
    decreases s.len(),
{
    if s.len() == 0 {
    } else {
        let p = nl_pos(s);
        lemma_nl_pos(s);
        let first = s.subrange(0, p as int);
        let rest = s.subrange(p as int + 1, s.len() as int);
        lemma_lines_len(rest);
        lemma_lines_len_concat(seq![first], log_lines(rest)->Some_0);
        assert(seq![first].drop_last() =~= Seq::<Seq<char>>::empty());
        assert(lines_len(Seq::<Seq<char>>::empty()) == 0);
        assert(lines_len(seq![first]) == first.len() + 1);
    }
}

/// The stretch of the log at a line's offset is that line, and a newline
/// stands right after it.
pub proof fn lemma_line_at_off(s: Seq<char>, j: int)
    requires
        log_lines(s) is Some,
        0 <= j < log_lines(s)->Some_0.len(),
    ensures
        ({
            let ls = log_lines(s)->Some_0;
            let off = line_off(ls, j);
            &&& off + ls[j].len() < s.len()
            &&& s.subrange(off as int, off + ls[j].len() as int) == ls[j]
            &&& s[off + ls[j].len() as int] == '\n'
        }),
    decreases s.len(),
{
    let ls = log_lines(s)->Some_0;
    let p = nl_pos(s);
    lemma_nl_pos(s);
    let first = s.subrange(0, p as int);
    let rest = s.subrange(p as int + 1, s.len() as int);
    if j == 0 {
        assert(ls[0] == first);
        assert(ls.subrange(0, 0) =~= Seq::<Seq<char>>::empty());
        assert(line_off(ls, 0) == 0);
        assert(s.subrange(0, first.len() as int) =~= first);
    } else {
        lemma_line_at_off(rest, j - 1);
        let rls = log_lines(rest)->Some_0;
        assert(ls[j] == rls[j - 1]);
        let roff = line_off(rls, j - 1);
        assert(ls.subrange(0, j) =~= seq![first] + rls.subrange(0, j - 1));
        lemma_lines_len_concat(seq![first], rls.subrange(0, j - 1));
        assert(seq![first].drop_last() =~= Seq::<Seq<char>>::empty());
        assert(lines_len(Seq::<Seq<char>>::empty()) == 0);
        assert(lines_len(seq![first]) == first.len() + 1);
        let off = line_off(ls, j);
        assert(off == p + 1 + roff);
        assert(s.subrange(off as int, off + ls[j].len() as int) =~= rest.subrange(
            roff as int,
            roff + rls[j - 1].len() as int,
        ));
        assert(s[off + ls[j].len() as int] == rest[roff + rls[j - 1].len() as int]);
    }
}

/// A live key's line: where it is and what it says.
pub open spec fn put_line_for(
    lines: Seq<Seq<char>>,
    k: Seq<char>,
    v: Seq<char>,
    off: nat,
    j: int,
) -> bool {
    &&& 0 <= j < lines.len()
    &&& line_off(lines, j) == off
    &&& decode_rec(lines[j]) == Some(Rec::Put { key: k, value: v })
}

/// The two replay results stay in step: they are defined on the same keys,
/// and each offset in the index points at a `Put` line whose key and value
/// are the key it is stored under and the value the map carries.
pub proof fn lemma_replay_sync(lines: Seq<Seq<char>>)
    ensures
        replay_index(lines).dom() =~= replay_map(lines).dom(),
        forall|k: Seq<char>| #[trigger] replay_index(lines).contains_key(k) ==> exists|j: int|
            put_line_for(lines, k, replay_map(lines)[k], replay_index(lines)[k], j),
    decreases lines.len(),
{
    if lines.len() == 0 {
    } else {
        let prev = lines.drop_last();
        lemma_replay_sync(prev);
        assert forall|j: int| 0 <= j <= prev.len() implies line_off(lines, j) == line_off(
            prev,
            j,
        ) by {
            assert(lines.subrange(0, j) =~= prev.subrange(0, j));
        }
        assert(lines.subrange(0, lines.len() - 1) =~= prev);
        let mi = replay_index(lines);
        let mm = replay_map(lines);
        assert forall|k: Seq<char>| #[trigger] mi.contains_key(k) implies exists|j: int|
            put_line_for(lines, k, mm[k], mi[k], j) by {
            let last = lines.last();
            match decode_rec(last) {
                Some(Rec::Put { key, value }) => {
                    if k == key {
                        assert(lines[lines.len() - 1] == last);
                        assert(line_off(lines, lines.len() - 1) == lines_len(prev));
                        assert(put_line_for(lines, k, mm[k], mi[k], lines.len() - 1));
                    } else {
                        let j0 = choose|j: int|
                            put_line_for(prev, k, replay_map(prev)[k], replay_index(prev)[k], j);
                        assert(lines[j0] == prev[j0]);
                        assert(put_line_for(lines, k, mm[k], mi[k], j0));
                    }
                },
                Some(Rec::Rm { key }) => {
                    let j0 = choose|j: int|
                        put_line_for(prev, k, replay_map(prev)[k], replay_index(prev)[k], j);
                    assert(lines[j0] == prev[j0]);
                    assert(put_line_for(lines, k, mm[k], mi[k], j0));
                },
                _ => {
                    let j0 = choose|j: int|
                        put_line_for(prev, k, replay_map(prev)[k], replay_index(prev)[k], j);
                    assert(lines[j0] == prev[j0]);
                    assert(put_line_for(lines, k, mm[k], mi[k], j0));
                },
            }
        }
    }
}

} // verus!
