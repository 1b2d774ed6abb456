use vstd::prelude::*;
use vstd::string::*;
use crate::codec;
use crate::codec::KvError;
use crate::codec::Op;
use crate::codec::Rec;
use crate::codec::decode_rec;
use crate::codec::encode_rec;
use crate::codec::lemma_decode_no_nl;
use crate::codec::lemma_encode_no_nl;
use crate::codec::lemma_round_trip;
use crate::codec::no_nl;
use crate::codec::push_char;
use crate::index::LogIndex;
use crate::replay::lemma_line_at_off;
use crate::replay::lemma_lines_len;
use crate::replay::lemma_log_lines_append;
use crate::replay::lemma_log_lines_concat;
use crate::replay::lemma_log_lines_no_nl;
use crate::replay::lemma_nl_pos_unique;
use crate::replay::lemma_replay_sync;
use crate::replay::line_off;
use crate::replay::lines_len;
use crate::replay::lines_ok;
use crate::replay::log_lines;
use crate::replay::put_line_for;
use crate::replay::replay_index;
use crate::replay::replay_map;

verus! {

/// Once this many bytes of log content have accumulated since the last
/// rewrite, a mutation triggers compaction.
pub const COMPACT_THRESHOLD: usize = 1024 * 1024;

/// The storage engine: an append-only log of records held as one string of
/// newline-terminated lines, and an index pointing each live key at the
/// offset of its most recent `Put` line.
pub struct KvStore {
    index: LogIndex,
    log: String,
    log_size: usize,
}

/// The key a decoded line speaks of.
pub open spec fn line_key(l: Seq<char>) -> Seq<char> {
    match decode_rec(l) {
        Some(Rec::Put { key, .. }) => key,
        Some(Rec::Rm { key }) => key,
        Some(Rec::Get { key }) => key,
        None => Seq::empty(),
    }
}

/// The value a decoded `Put` line carries.
pub open spec fn line_value(l: Seq<char>) -> Seq<char> {
    match decode_rec(l) {
        Some(Rec::Put { value, .. }) => value,
        _ => Seq::empty(),
    }
}

/// A compacted log for the mapping `m`: every line is a `Put` of a live key
/// with its current value, no key twice, no tombstones, and every live key
/// has its line.
pub open spec fn compacted(ls: Seq<Seq<char>>, m: Map<Seq<char>, Seq<char>>) -> bool {
    &&& forall|t: int|
        0 <= t < ls.len() ==> decode_rec(#[trigger] ls[t]) == Some(
            Rec::Put { key: line_key(ls[t]), value: line_value(ls[t]) },
        )
    &&& forall|t: int|
        0 <= t < ls.len() ==> m.contains_key(line_key(#[trigger] ls[t])) && m[line_key(ls[t])]
            == line_value(ls[t])
    &&& forall|t1: int, t2: int|
        0 <= t1 < t2 < ls.len() ==> line_key(ls[t1]) != line_key(ls[t2])
    &&& forall|k: Seq<char>| #[trigger] m.contains_key(k) ==> exists|t: int|
        0 <= t < ls.len() && line_key(ls[t]) == k
}

/// Scan for the first newline at or after `from`.
fn find_newline(s: &str, from: usize) -> (r: Option<usize>)
    requires
        from <= s@.len(),
    ensures
        match r {
            Some(j) => from <= j < s@.len() && s@[j as int] == '\n' && forall|i: int|
                from <= i < j ==> s@[i] != '\n',
            None => forall|i: int| from <= i < s@.len() ==> s@[i] != '\n',
        },
{
    let n = s.unicode_len();
    let mut j = from;
    while j < n
        invariant
            from <= j <= n,
            n == s@.len(),
            forall|i: int| from <= i < j ==> s@[i] != '\n',
        decreases n - j,
    {
        if s.get_char(j) == '\n' {
            return Some(j);
        }
        j = j + 1;
    }
    None
}

impl View for KvStore {
    type V = Map<Seq<char>, Seq<char>>;

    /// The observable content of the store: what replaying its log leaves.
    closed spec fn view(&self) -> Map<Seq<char>, Seq<char>> {
        replay_map(log_lines(self.log@)->Some_0)
    }
}

impl KvStore {
    /// The log's entire content.
    pub closed spec fn log_view(self) -> Seq<char> {
        self.log@
    }

    pub closed spec fn lines(self) -> Seq<Seq<char>> {
        log_lines(self.log@)->Some_0
    }

    /// The running size counter that drives the compaction trigger: the
    /// bytes of log content accumulated since the last rewrite.
    pub closed spec fn size_counter(self) -> nat {
        self.log_size as nat
    }

    /// Well-formed: the log splits into decodable lines, the index is
    /// exactly the log's replay, and the size counter is the log's length.
    pub closed spec fn wf(self) -> bool {
        &&& self.index.wf()
        &&& log_lines(self.log@) is Some
        &&& lines_ok(self.lines())
        &&& self.index@ == replay_index(self.lines())
        &&& self.log_size == self.log@.len()
    }

    /// The log content, for whoever persists it.
    pub fn log_content(&self) -> (r: &String)
        ensures
            r@ == self.log_view(),
    {
        &self.log
    }

    /// Build a store from log content by full replay: walk the lines in
    /// file order, a `Put` binds its key to the line's offset, a `Rm`
    /// withdraws the key. Fails if and only if the content is not a
    /// sequence of newline-terminated, decodable record lines.
    pub fn open(log_content: String) -> (r: Result<KvStore, KvError>)
        ensures
            match r {
                Ok(s) => {
                    &&& s.wf()
                    &&& s.log_view() == log_content@
                    &&& log_lines(log_content@) is Some
                    &&& lines_ok(log_lines(log_content@)->Some_0)
                    &&& s@ == replay_map(log_lines(log_content@)->Some_0)
                },
                Err(e) => {
                    &&& e == KvError::MalformedRecordError
                    &&& !(log_lines(log_content@) is Some && lines_ok(
                        log_lines(log_content@)->Some_0,
                    ))
                },
            },
    {
        let ghost total = log_content@;
        let n = log_content.as_str().unicode_len();
        let mut index = LogIndex::new();
        let mut off: usize = 0;
        let ghost mut done: Seq<Seq<char>> = Seq::empty();
        proof {
            assert(total.subrange(0, 0) =~= Seq::<char>::empty());
        }
        #[verifier::loop_isolation(false)]
        while off < n
            invariant
                off <= n,
                index.wf(),
                log_lines(total.subrange(0, off as int)) == Some(done),
                lines_ok(done),
                index@ == replay_index(done),
                lines_len(done) == off,
            decreases n - off,
        {
            let start = off;
            let ghost prefix = total.subrange(0, start as int);
            match find_newline(log_content.as_str(), off) {
                None => {
                    proof {
                        let suffix = total.subrange(start as int, n as int);
                        assert forall|i: int| 0 <= i < suffix.len() implies suffix[i]
                            != '\n' by {
                            assert(suffix[i] == total[start + i]);
                        }
                        lemma_nl_pos_unique(suffix, suffix.len() as int);
                        lemma_log_lines_concat(prefix, suffix);
                        assert(prefix + suffix =~= total);
                    }
                    return Err(KvError::MalformedRecordError);
                },
                Some(nl) => {
                    let line_str = log_content.as_str().substring_char(off, nl);
                    let ghost line = total.subrange(start as int, nl as int);
                    proof {
                        assert(no_nl(line)) by {
                            assert(forall|i: int|
                                0 <= i < line.len() ==> line[i] == total[start + i]);
                        }
                        lemma_log_lines_append(prefix, line);
                        assert(prefix + line + seq!['\n'] =~= total.subrange(0, nl as int + 1));
                    }
                    match codec::decode(line_str) {
                        Err(_) => {
                            proof {
                                let prefix2 = total.subrange(0, nl as int + 1);
                                let suffix2 = total.subrange(nl as int + 1, n as int);
                                lemma_log_lines_concat(prefix2, suffix2);
                                assert(prefix2 + suffix2 =~= total);
                                if log_lines(total) is Some {
                                    let all = log_lines(total)->Some_0;
                                    assert(all == done.push(line)
                                        + log_lines(suffix2)->Some_0);
                                    assert(all[done.len() as int] == line);
                                    assert(!lines_ok(all));
                                }
                            }
                            return Err(KvError::MalformedRecordError);
                        },
                        Ok(op) => {
                            let ghost opv = op@;
                            let ghost done0 = done;
                            proof {
                                done = done.push(line);
                                assert(done.drop_last() =~= done0);
                                assert(done.last() == line);
                                assert(decode_rec(line) == Some(opv));
                                assert(lines_ok(done)) by {
                                    assert(forall|j: int|
                                        0 <= j < done0.len() ==> done[j] == done0[j]);
                                }
                                assert(lines_len(done) == nl + 1);
                            }
                            match op {
                                Op::Put(k, _v) => {
                                    proof {
                                        assert(opv == Rec::Put { key: k@, value: _v@ });
                                        assert(replay_index(done) == replay_index(done0).insert(
                                            k@,
                                            start as nat,
                                        ));
                                    }
                                    index.insert(k, start);
                                },
                                Op::Rm(k) => {
                                    proof {
                                        assert(replay_index(done) == replay_index(done0).remove(
                                            k@,
                                        ));
                                    }
                                    index.remove(&k);
                                },
                                Op::Get(_k) => {
                                    proof {
                                        assert(replay_index(done) == replay_index(done0));
                                    }
                                },
                            }
                            off = nl + 1;
                        },
                    }
                },
            }
        }
        proof {
            assert(total.subrange(0, n as int) =~= total);
        }
        let store = KvStore { index, log: log_content, log_size: n };
        Ok(store)
    }

    /// Read the one line that begins at `off` in the log; `j` names the
    /// line that the offset points at.
    fn read_line_at(&self, off: usize, Ghost(j): Ghost<int>) -> (r: String)
        requires
            self.wf(),
            0 <= j < self.lines().len(),
            line_off(self.lines(), j) == off as nat,
        ensures
            r@ == self.lines()[j],
    {
        proof {
            lemma_line_at_off(self.log@, j);
            lemma_log_lines_no_nl(self.log@);
        }
        let ghost ls = self.lines();
        let ghost end = off + ls[j].len();
        match find_newline(self.log.as_str(), off) {
            Some(nl) => {
                proof {
                    assert forall|i: int| off <= i < end implies self.log@[i] != '\n' by {
                        assert(self.log@[i] == self.log@.subrange(off as int, end as int)[i
                            - off]);
                        assert(self.log@.subrange(off as int, end as int) == ls[j]);
                    }
                    if nl < end {
                        assert(self.log@[nl as int] != '\n');
                    }
                    if nl > end {
                        assert(self.log@[end as int] != '\n');
                    }
                    assert(nl == end);
                }
                let line = self.log.as_str().substring_char(off, nl).to_owned();
                proof {
                    assert(line@ == ls[j]);
                }
                line
            },
            None => {
                proof {
                    assert(self.log@[end as int] == '\n');
                    assert(false);
                }
                String::new()
            },
        }
    }

    /// Look the key up; read, decode and check the line its offset points
    /// at. Under well-formedness that line is always a `Put` of this very
    /// key, so the internal-consistency errors cannot occur, and the result
    /// is the key's current value, or nothing if the key is not present.
    pub fn get(&self, key: String) -> (r: Result<Option<String>, KvError>)
        requires
            self.wf(),
        ensures
            match r {
                Ok(v) => match v {
                    Some(val) => self@.contains_key(key@) && val@ == self@[key@],
                    None => !self@.contains_key(key@),
                },
                Err(_) => false,
            },
    {
        proof {
            lemma_replay_sync(self.lines());
        }
        match self.index.lookup(&key) {
            None => Ok(None),
            Some(off) => {
                let ghost j = choose|j: int|
                    put_line_for(self.lines(), key@, self@[key@], self.index@[key@], j);
                let line = self.read_line_at(off, Ghost(j));
                proof {
                    assert(decode_rec(line@) == Some(
                        Rec::Put { key: key@, value: self@[key@] },
                    ));
                }
                match codec::decode(line.as_str()) {
                    Ok(op) => match op {
                        Op::Put(k2, v) => {
                            if k2 == key {
                                Ok(Some(v))
                            } else {
                                proof {
                                    assert(false);
                                }
                                Err(KvError::InvalidKeyError)
                            }
                        },
                        _ => {
                            proof {
                                assert(false);
                            }
                            Err(KvError::InvalidCommandError)
                        },
                    },
                    Err(_) => {
                        proof {
                            assert(false);
                        }
                        Err(KvError::MalformedRecordError)
                    },
                }
            },
        }
    }

    /// Append one encoded record line to the log and keep the size counter
    /// in step.
    fn append_line(&mut self, line: String)
        requires
            old(self).wf(),
            no_nl(line@),
            decode_rec(line@) is Some,
        ensures
            final(self).index == old(self).index,
            final(self).log@ == old(self).log@ + line@ + seq!['\n'],
            final(self).log_size == final(self).log@.len(),
            final(self).lines() == old(self).lines().push(line@),
            lines_ok(final(self).lines()),
            log_lines(final(self).log@) is Some,
            lines_len(old(self).lines()) == old(self).log_size,
    {
        proof {
            lemma_log_lines_append(self.log@, line@);
            lemma_lines_len(self.log@);
        }
        self.log.append(line.as_str());
        push_char(&mut self.log, '\n');
        proof {
            assert(self.log@ =~= old(self).log@ + line@ + seq!['\n']);
        }
        self.log_size = self.log.as_str().unicode_len();
        proof {
            let lines0 = old(self).lines();
            let lines1 = self.lines();
            assert(lines1 == lines0.push(line@));
            assert(lines_ok(lines1)) by {
                assert(forall|t: int| 0 <= t < lines0.len() ==> lines1[t] == lines0[t]);
                assert(lines1[lines0.len() as int] == line@);
            }
        }
    }

    /// Record the key's new value: encode a `Put` line, append it at the
    /// old end of the log, then point the index at the new line. Afterwards
    /// the compaction trigger is evaluated: below the threshold the log is
    /// exactly the old log plus this one line; at or above it, the log is
    /// rewritten to the live records before the call returns. The
    /// observable mapping gains exactly this binding.
    pub fn set(&mut self, key: String, value: String) -> (r: Result<(), KvError>)
        requires
            old(self).wf(),
            no_nl(key@),
            no_nl(value@),
        ensures
            r is Ok,
            final(self).wf(),
            final(self)@ == old(self)@.insert(key@, value@),
            ({
                let line = encode_rec(Rec::Put { key: key@, value: value@ });
                &&& (old(self).log_view().len() + line.len() + 1 < COMPACT_THRESHOLD ==> {
                    &&& final(self).log_view() == old(self).log_view() + line + seq!['\n']
                    &&& final(self).lines() == old(self).lines().push(line)
                })
                &&& (old(self).log_view().len() + line.len() + 1 >= COMPACT_THRESHOLD
                    ==> compacted(final(self).lines(), final(self)@))
            }),
    {
        let op = Op::Put(key, value);
        let ghost opv = op@;
        let line = codec::encode(&op);
        proof {
            lemma_encode_no_nl(opv);
            lemma_round_trip(opv);
        }
        let off = self.log_size;
        self.append_line(line);
        if let Op::Put(k, _v) = op {
            proof {
                let lines0 = old(self).lines();
                let lines1 = self.lines();
                assert(lines1.drop_last() =~= lines0);
                assert(replay_index(lines1) == replay_index(lines0).insert(k@, off as nat));
                assert(replay_map(lines1) == replay_map(lines0).insert(k@, _v@));
            }
            self.index.insert(k, off);
        }
        if self.log_size >= COMPACT_THRESHOLD {
            self.compact();
        }
        Ok(())
    }

    /// Withdraw a key: if it is absent — a key holding a newline never is —
    /// this fails with `KeyNotFoundError` and changes nothing; otherwise a
    /// tombstone line is appended at the old end of the log and the key
    /// leaves the index. Afterwards the compaction trigger is evaluated:
    /// below the threshold the log is exactly the old log plus the
    /// tombstone; at or above it, the log is rewritten to the live records.
    /// The observable mapping loses exactly this key.
    pub fn remove(&mut self, key: String) -> (r: Result<(), KvError>)
        requires
            old(self).wf(),
        ensures
            final(self).wf(),
            match r {
                Ok(_) => {
                    &&& old(self)@.contains_key(key@)
                    &&& final(self)@ == old(self)@.remove(key@)
                    &&& ({
                        let line = encode_rec(Rec::Rm { key: key@ });
                        &&& (old(self).log_view().len() + line.len() + 1 < COMPACT_THRESHOLD
                            ==> {
                            &&& final(self).log_view() == old(self).log_view() + line
                                + seq!['\n']
                            &&& final(self).lines() == old(self).lines().push(line)
                        })
                        &&& (old(self).log_view().len() + line.len() + 1 >= COMPACT_THRESHOLD
                            ==> compacted(final(self).lines(), final(self)@))
                    })
                },
                Err(e) => {
                    &&& e == KvError::KeyNotFoundError
                    &&& !old(self)@.contains_key(key@)
                    &&& *final(self) == *old(self)
                },
            },
    {
        proof {
            lemma_replay_sync(self.lines());
        }
        match self.index.lookup(&key) {
            None => Err(KvError::KeyNotFoundError),
            Some(_) => {
                proof {
                    let ghost j = choose|j: int|
                        put_line_for(self.lines(), key@, self@[key@], self.index@[key@], j);
                    lemma_log_lines_no_nl(self.log@);
                    lemma_decode_no_nl(self.lines()[j]);
                    assert(no_nl(key@));
                }
                let op = Op::Rm(key);
                let ghost opv = op@;
                let line = codec::encode(&op);
                proof {
                    lemma_encode_no_nl(opv);
                    lemma_round_trip(opv);
                }
                self.append_line(line);
                if let Op::Rm(k) = op {
                    proof {
                        let lines0 = old(self).lines();
                        let lines1 = self.lines();
                        assert(lines1.drop_last() =~= lines0);
                        assert(replay_index(lines1) == replay_index(lines0).remove(k@));
                        assert(replay_map(lines1) == replay_map(lines0).remove(k@));
                    }
                    self.index.remove(&k);
                }
                if self.log_size >= COMPACT_THRESHOLD {
                    self.compact();
                }
                Ok(())
            },
        }
    }

    /// Rewrite the log so that it holds exactly one `Put` line for each
    /// currently live key and nothing else, and point the index at the new
    /// offsets. The observable mapping does not change; only the physical
    /// layout does.
    pub fn compact(&mut self)
        requires
            old(self).wf(),
        ensures
            final(self).wf(),
            final(self)@ == old(self)@,
            compacted(final(self).lines(), final(self)@),
    {
        let ghost old_lines = self.lines();
        proof {
            self.index.lemma_index_props();
            lemma_replay_sync(old_lines);
            lemma_log_lines_no_nl(self.log@);
        }
        let ghost keys = self.index.keys();
        let n = self.index.len();
        let mut new_log = String::new();
        let mut new_index = LogIndex::new();
        let mut new_size: usize = 0;
        let ghost mut nlines: Seq<Seq<char>> = Seq::empty();
        let mut i: usize = 0;
        #[verifier::loop_isolation(false)]
        while i < n
            invariant
                i <= n,
                new_index.wf(),
                log_lines(new_log@) == Some(nlines),
                nlines.len() == i,
                new_size == new_log@.len(),
                lines_len(nlines) == new_size,
                new_index@ == replay_index(nlines),
                forall|t: int|
                    0 <= t < i ==> decode_rec(#[trigger] nlines[t]) == Some(
                        Rec::Put { key: keys[t], value: old(self)@[keys[t]] },
                    ),
                forall|k: Seq<char>| #[trigger] replay_map(nlines).contains_key(k)
                    ==> old(self)@.contains_key(k) && replay_map(nlines)[k] == old(self)@[k],
                forall|t: int| 0 <= t < i ==> replay_map(nlines).contains_key(
                    #[trigger] keys[t],
                ),
            decreases n - i,
        {
            let key = self.index.key_at(i).clone();
            let off = self.index.off_at(i);
            let ghost ki = keys[i as int];
            let ghost j = choose|j: int|
                put_line_for(old_lines, ki, self@[ki], self.index@[ki], j);
            let line = self.read_line_at(off, Ghost(j));
            proof {
                assert(decode_rec(line@) == Some(
                    Rec::Put { key: keys[i as int], value: self@[keys[i as int]] },
                ));
                assert(no_nl(line@));
                lemma_log_lines_append(new_log@, line@);
            }
            new_index.insert(key, new_size);
            let ghost nlines0 = nlines;
            let ghost nlog0 = new_log@;
            new_log.append(line.as_str());
            push_char(&mut new_log, '\n');
            proof {
                assert(new_log@ =~= nlog0 + line@ + seq!['\n']);
            }
            new_size = new_log.as_str().unicode_len();
            proof {
                nlines = nlines.push(line@);
                assert(nlines.drop_last() =~= nlines0);
                assert(nlines.last() == line@);
                assert(replay_index(nlines) == replay_index(nlines0).insert(
                    keys[i as int],
                    lines_len(nlines0),
                ));
                assert(replay_map(nlines) == replay_map(nlines0).insert(
                    keys[i as int],
                    old(self)@[keys[i as int]],
                ));
                assert(forall|t: int| 0 <= t < i ==> nlines[t] == nlines0[t]);
            }
            i = i + 1;
        }
        self.log = new_log;
        self.index = new_index;
        self.log_size = new_size;
        proof {
            let m0 = old(self)@;
            let m1 = self@;
            assert forall|k: Seq<char>| m0.contains_key(k) implies m1.contains_key(k) by {
                let t = choose|t: int| 0 <= t < keys.len() && keys[t] == k;
                assert(replay_map(nlines).contains_key(keys[t]));
            }
            assert(m1 =~= m0);
            assert(lines_ok(nlines));
            assert(compacted(self.lines(), self@)) by {
                assert forall|t1: int, t2: int| 0 <= t1 < t2 < nlines.len() implies line_key(
                    nlines[t1],
                ) != line_key(nlines[t2]) by {
                    assert(line_key(nlines[t1]) == keys[t1]);
                    assert(line_key(nlines[t2]) == keys[t2]);
                }
                assert forall|k: Seq<char>| #[trigger] self@.contains_key(k) implies exists|t: int|
                    0 <= t < nlines.len() && line_key(nlines[t]) == k by {
                    let t = choose|t: int| 0 <= t < keys.len() && keys[t] == k;
                    assert(line_key(nlines[t]) == k);
                }
            }
        }
    }
}

/// Set/get consistency: a store whose mapping results from binding `k` to
/// `v` — which is what `set` ensures — answers a lookup of `k` with `v`,
/// which is what `get` then returns.
pub proof fn lemma_set_get_consistency(pre: KvStore, post: KvStore, k: Seq<char>, v: Seq<char>)
    requires
        post@ == pre@.insert(k, v),
    ensures
        post@.contains_key(k),
        post@[k] == v,
{
}

/// Overwrite: binding `k` to `v1` and then to `v2` leaves `k` at `v2`,
/// whatever the log retains physically.
pub proof fn lemma_overwrite(
    pre: KvStore,
    mid: KvStore,
    post: KvStore,
    k: Seq<char>,
    v1: Seq<char>,
    v2: Seq<char>,
)
    requires
        mid@ == pre@.insert(k, v1),
        post@ == mid@.insert(k, v2),
    ensures
        post@.contains_key(k),
        post@[k] == v2,
{
}

/// Remove semantics: binding `k` and then withdrawing it — which is what
/// `set` followed by a successful `remove` ensures — leaves `k` absent, so
/// `get` answers that the key is not present.
pub proof fn lemma_remove_semantics(
    pre: KvStore,
    mid: KvStore,
    post: KvStore,
    k: Seq<char>,
    v: Seq<char>,
)
    requires
        mid@ == pre@.insert(k, v),
        post@ == mid@.remove(k),
    ensures
        !post@.contains_key(k),
{
}

/// Replay equivalence: the log content of a well-formed store parses into
/// the store's own lines, replays to the store's own mapping, and the size
/// counter is that content's length. Together with the contract of `open`
/// — which succeeds on exactly such content and returns a store whose
/// mapping is the replay — re-opening a store's log yields a store whose
/// `get` answers agree with the first store's on every key.
pub proof fn lemma_replay_equivalence(s: KvStore)
    requires
        s.wf(),
    ensures
        log_lines(s.log_view()) == Some(s.lines()),
        lines_ok(s.lines()),
        replay_map(s.lines()) == s@,
        s.size_counter() == s.log_view().len(),
{
}

} // verus!



