use vstd::prelude::*;
use vstd::string::*;

verus! {

/// Errors surfaced by the store.
#[derive(Debug, Clone, Copy, PartialEq, Eq, Structural)]
pub enum KvError {
    /// The record at a stored offset is not a `Put` record.
    InvalidCommandError,
    /// The record at a stored offset names a different key.
    InvalidKeyError,
    /// `remove` was asked for a key that is not present.
    KeyNotFoundError,
    /// A log line could not be decoded.
    MalformedRecordError,
}

/// Mathematical model of one log record.
pub enum Rec {
    Put { key: Seq<char>, value: Seq<char> },
    Rm { key: Seq<char> },
    Get { key: Seq<char> },
}

/// One logical operation on the store. `Get` exists for symmetry with the
/// command set but is never persisted by the engine.
#[derive(Debug, PartialEq, Eq)]
pub enum Op {
    Put(String, String),
    Rm(String),
    Get(String),
}

impl View for Op {
    type V = Rec;

    open spec fn view(&self) -> Rec {
        match self {
            Op::Put(k, v) => Rec::Put { key: k@, value: v@ },
            Op::Rm(k) => Rec::Rm { key: k@ },
            Op::Get(k) => Rec::Get { key: k@ },
        }
    }
}

/// No newline anywhere in the sequence.
pub open spec fn no_nl(s: Seq<char>) -> bool {
    forall|i: int| 0 <= i < s.len() ==> s[i] != '\n'
}

/// Keys and values must not contain a newline, so that the encoding of a
/// record occupies exactly one line of the log.
pub open spec fn rec_ok(r: Rec) -> bool {
    match r {
        Rec::Put { key, value } => no_nl(key) && no_nl(value),
        Rec::Rm { key } => no_nl(key),
        Rec::Get { key } => no_nl(key),
    }
}

pub open spec fn is_digit(c: char) -> bool {
    48 <= c as int && c as int <= 57
}

pub open spec fn digit_val(c: char) -> nat {
    (c as int - 48) as nat
}

pub open spec fn digit_char(d: nat) -> char {
    (d + 48) as char
}

/// Decimal representation of `n`, most significant digit first.
pub open spec fn dec_rep(n: nat) -> Seq<char>
    decreases n,
{
    if n < 10 {
        seq![digit_char(n)]
    } else {
        dec_rep(n / 10).push(digit_char(n % 10))
    }
}

/// A record as one log line (without the trailing newline):
/// a `Put` carries the length of its key in decimal, so that the key and the
/// value need no escaping; a `Rm` or `Get` line is the tag and the key.
pub open spec fn encode_rec(r: Rec) -> Seq<char> {
    match r {
        Rec::Put { key, value } => seq!['S', ' '] + dec_rep(key.len()) + seq![' '] + key + value,
        Rec::Rm { key } => seq!['R', ' '] + key,
        Rec::Get { key } => seq!['G', ' '] + key,
    }
}

/// Read a decimal length: digits up to a space. Returns the value and the
/// rest of the line after the space.
pub open spec fn parse_len(l: Seq<char>, acc: nat) -> Option<(nat, Seq<char>)>
    decreases l.len(),
{
    if l.len() == 0 {
        None
    } else if l[0] == ' ' {
        Some((acc, l.drop_first()))
    } else if is_digit(l[0]) {
        parse_len(l.drop_first(), acc * 10 + digit_val(l[0]))
    } else {
        None
    }
}

/// Decode one log line, or `None` if it is not a record.
pub open spec fn decode_rec(l: Seq<char>) -> Option<Rec> {
    if l.len() < 2 || l[1] != ' ' {
        None
    } else if l[0] == 'R' {
        Some(Rec::Rm { key: l.subrange(2, l.len() as int) })
    } else if l[0] == 'G' {
        Some(Rec::Get { key: l.subrange(2, l.len() as int) })
    } else if l[0] == 'S' {
        match parse_len(l.subrange(2, l.len() as int), 0) {
            Some(p) => {
                let (klen, rest) = p;
                if klen <= rest.len() {
                    Some(
                        Rec::Put {
                            key: rest.subrange(0, klen as int),
                            value: rest.subrange(klen as int, rest.len() as int),
                        },
                    )
                } else {
                    None
                }
            },
            None => None,
        }
    } else {
        None
    }
}

/// The numeric value of a digit string read left to right, starting from
/// an already accumulated value.
pub open spec fn val_acc(ds: Seq<char>, acc: nat) -> nat
    decreases ds.len(),
{
    if ds.len() == 0 {
        acc
    } else {
        val_acc(ds.drop_first(), acc * 10 + digit_val(ds[0]))
    }
}

pub open spec fn pow10(k: nat) -> nat
    decreases k,
{
    if k == 0 {
        1
    } else {
        10 * pow10((k - 1) as nat)
    }
}

pub proof fn lemma_dec_rep_digits(n: nat)
    ensures
        dec_rep(n).len() >= 1,
        forall|i: int| 0 <= i < dec_rep(n).len() ==> is_digit(#[trigger] dec_rep(n)[i]),
    decreases n,
{
    if n < 10 {
        assert(digit_char(n) as int == n + 48);
    } else {
        lemma_dec_rep_digits(n / 10);
        assert(digit_char(n % 10) as int == n % 10 + 48);
        assert(forall|i: int|
            0 <= i < dec_rep(n).len() ==> is_digit(#[trigger] dec_rep(n)[i])) by {
            assert(forall|i: int|
                0 <= i < dec_rep(n / 10).len() ==> dec_rep(n)[i] == dec_rep(n / 10)[i]);
        }
    }
}

/// Parsing a digit string followed by a space yields its numeric value and
/// what follows the space.
proof fn lemma_parse_len_digits(ds: Seq<char>, tail: Seq<char>, acc: nat)
    requires
        forall|i: int| 0 <= i < ds.len() ==> is_digit(#[trigger] ds[i]),
        tail.len() > 0,
        tail[0] == ' ',
    ensures
        parse_len(ds + tail, acc) == Some((val_acc(ds, acc), tail.drop_first())),
    decreases ds.len(),
{
    if ds.len() == 0 {
        assert(ds + tail =~= tail);
    } else {
        let l = ds + tail;
        assert(l[0] == ds[0]);
        assert(is_digit(l[0]));
        assert(l[0] != ' ');
        assert(l.drop_first() =~= ds.drop_first() + tail);
        lemma_parse_len_digits(ds.drop_first(), tail, acc * 10 + digit_val(ds[0]));
    }
}

proof fn lemma_val_acc_push(ds: Seq<char>, c: char, acc: nat)
    ensures
        val_acc(ds.push(c), acc) == val_acc(ds, acc) * 10 + digit_val(c),
    decreases ds.len(),
{
    if ds.len() == 0 {
        assert(ds.push(c)[0] == c);
        assert(ds.push(c).drop_first() =~= Seq::<char>::empty());
        assert(val_acc(Seq::<char>::empty(), acc * 10 + digit_val(c)) == acc * 10 + digit_val(c));
        assert(val_acc(ds, acc) == acc);
    } else {
        assert(ds.push(c)[0] == ds[0]);
        assert(ds.push(c).drop_first() =~= ds.drop_first().push(c));
        lemma_val_acc_push(ds.drop_first(), c, acc * 10 + digit_val(ds[0]));
    }
}

proof fn lemma_val_acc_dec_rep(n: nat, acc: nat)
    ensures
        val_acc(dec_rep(n), acc) == acc * pow10(dec_rep(n).len()) + n,
    decreases n,
{
    if n < 10 {
        assert(digit_val(digit_char(n)) == n);
        assert(pow10(0) == 1);
        assert(pow10(1) == 10);
        let ds = dec_rep(n);
        assert(ds[0] == digit_char(n));
        assert(ds.drop_first() =~= Seq::<char>::empty());
        assert(val_acc(Seq::<char>::empty(), acc * 10 + n) == acc * 10 + n);
        assert(val_acc(ds, acc) == acc * 10 + n);
    } else {
        let k = dec_rep(n / 10).len();
        lemma_val_acc_dec_rep(n / 10, acc);
        lemma_val_acc_push(dec_rep(n / 10), digit_char(n % 10), acc);
        assert(digit_val(digit_char(n % 10)) == n % 10);
        assert(dec_rep(n).len() == k + 1);
        assert(pow10((k + 1) as nat) == 10 * pow10(k));
        assert(n / 10 * 10 + n % 10 == n) by (nonlinear_arith);
        assert((acc * pow10(k) + n / 10) * 10 + n % 10 == acc * (10 * pow10(k)) + (n / 10 * 10
            + n % 10)) by (nonlinear_arith);
    }
}

/// A successful length parse never yields less than what was already
/// accumulated, and consumes at least one character.
proof fn lemma_parse_len_lower(l: Seq<char>, acc: nat)
    ensures
        parse_len(l, acc) matches Some(p) ==> p.0 >= acc && p.1.len() < l.len(),
    decreases l.len(),
{
    if l.len() == 0 {
    } else if l[0] == ' ' {
    } else if is_digit(l[0]) {
        lemma_parse_len_lower(l.drop_first(), acc * 10 + digit_val(l[0]));
    }
}

/// What a length parse leaves over holds no newline if its input held
/// none.
proof fn lemma_parse_len_no_nl(l: Seq<char>, acc: nat)
    requires
        no_nl(l),
    ensures
        parse_len(l, acc) matches Some(p) ==> no_nl(p.1),
    decreases l.len(),
{
    if l.len() == 0 {
    } else if l[0] == ' ' {
        let rest = l.drop_first();
        assert(no_nl(rest)) by {
            assert(forall|i: int| 0 <= i < rest.len() ==> rest[i] == l[i + 1]);
        }
    } else if is_digit(l[0]) {
        assert(no_nl(l.drop_first())) by {
            assert(forall|i: int|
                0 <= i < l.drop_first().len() ==> l.drop_first()[i] == l[i + 1]);
        }
        lemma_parse_len_no_nl(l.drop_first(), acc * 10 + digit_val(l[0]));
    }
}

/// A record decoded from a newline-free line carries no newline in its key
/// or value: they are stretches of the line itself.
pub proof fn lemma_decode_no_nl(l: Seq<char>)
    requires
        no_nl(l),
        decode_rec(l) is Some,
    ensures
        rec_ok(decode_rec(l)->Some_0),
{
    let sub2 = l.subrange(2, l.len() as int);
    assert(no_nl(sub2)) by {
        assert(forall|i: int| 0 <= i < sub2.len() ==> sub2[i] == l[i + 2]);
    }
    if l.len() >= 2 && l[1] == ' ' && l[0] == 'S' && l[0] != 'R' && l[0] != 'G' {
        lemma_parse_len_no_nl(sub2, 0);
        let r = parse_len(sub2, 0);
        if r is Some {
            let klen = r->Some_0.0;
            let rest = r->Some_0.1;
            if klen <= rest.len() {
                assert(no_nl(rest.subrange(0, klen as int))) by {
                    assert(forall|i: int|
                        0 <= i < klen ==> rest.subrange(0, klen as int)[i] == rest[i]);
                }
                assert(no_nl(rest.subrange(klen as int, rest.len() as int))) by {
                    assert(forall|i: int|
                        0 <= i < rest.len() - klen ==> rest.subrange(
                            klen as int,
                            rest.len() as int,
                        )[i] == rest[i + klen]);
                }
            }
        }
    }
}

/// Round trip: decoding an encoded record gives the record back.
pub proof fn lemma_round_trip(r: Rec)
    requires
        rec_ok(r),
    ensures
        decode_rec(encode_rec(r)) == Some(r),
{
    let l = encode_rec(r);
    match r {
        Rec::Put { key, value } => {
            let ds = dec_rep(key.len());
            lemma_dec_rep_digits(key.len());
            let tail = seq![' '] + key + value;
            assert(l[0] == 'S');
            assert(l[1] == ' ');
            assert(l.subrange(2, l.len() as int) =~= ds + tail);
            assert(tail[0] == ' ');
            lemma_parse_len_digits(ds, tail, 0);
            lemma_val_acc_dec_rep(key.len(), 0);
            assert(val_acc(ds, 0) == 0 * pow10(ds.len()) + key.len());
            assert(0 * pow10(ds.len()) == 0) by (nonlinear_arith);
            let rest = tail.drop_first();
            assert(rest =~= key + value);
            assert(rest.subrange(0, key.len() as int) =~= key);
            assert(rest.subrange(key.len() as int, rest.len() as int) =~= value);
        },
        Rec::Rm { key } => {
            assert(l[0] == 'R');
            assert(l[1] == ' ');
            assert(l.subrange(2, l.len() as int) =~= key);
        },
        Rec::Get { key } => {
            assert(l[0] == 'G');
            assert(l[1] == ' ');
            assert(l.subrange(2, l.len() as int) =~= key);
        },
    }
}

/// The encoding of a well-formed record contains no newline: it is one line.
pub proof fn lemma_encode_no_nl(r: Rec)
    requires
        rec_ok(r),
    ensures
        no_nl(encode_rec(r)),
{
    let l = encode_rec(r);
    match r {
        Rec::Put { key, value } => {
            let ds = dec_rep(key.len());
            lemma_dec_rep_digits(key.len());
            assert forall|i: int| 0 <= i < l.len() implies l[i] != '\n' by {
                if i < 2 {
                } else if i < 2 + ds.len() {
                    assert(l[i] == ds[i - 2]);
                    assert(is_digit(ds[i - 2]));
                } else if i == 2 + ds.len() {
                } else if i < 3 + ds.len() + key.len() {
                    assert(l[i] == key[i - 3 - ds.len()]);
                } else {
                    assert(l[i] == value[i - 3 - ds.len() - key.len()]);
                }
            }
        },
        Rec::Rm { key } => {
            assert forall|i: int| 0 <= i < l.len() implies l[i] != '\n' by {
                if i >= 2 {
                    assert(l[i] == key[i - 2]);
                }
            }
        },
        Rec::Get { key } => {
            assert forall|i: int| 0 <= i < l.len() implies l[i] != '\n' by {
                if i >= 2 {
                    assert(l[i] == key[i - 2]);
                }
            }
        },
    }
}

/// Relies on std's `String::push`: appends exactly one character.
#[verifier::external_body]
pub(crate) fn push_char(s: &mut String, c: char)
    ensures
        final(s)@ == old(s)@.push(c),
{
    s.push(c);
}

fn digit_char_exec(d: usize) -> (c: char)
    requires
        d < 10,
    ensures
        c == digit_char(d as nat),
{
    (d as u8 + 48) as char
}

/// The decimal representation of `n`, most significant digit first.
fn usize_dec(n: usize) -> (r: String)
    ensures
        r@ == dec_rep(n as nat),
    decreases n,
{
    if n < 10 {
        let mut s = String::new();
        push_char(&mut s, digit_char_exec(n));
        proof {
            assert(s@ =~= seq![digit_char(n as nat)]);
        }
        s
    } else {
        let mut s = usize_dec(n / 10);
        push_char(&mut s, digit_char_exec(n % 10));
        s
    }
}

/// Serialize one record as a single log line, without the trailing newline.
pub fn encode(op: &Op) -> (r: String)
    ensures
        r@ == encode_rec(op@),
{
    match op {
        Op::Put(k, v) => {
            let klen = k.as_str().unicode_len();
            let mut s = String::from_str("S ");
            let num = usize_dec(klen);
            s.append(num.as_str());
            s.append(" ");
            s.append(k.as_str());
            s.append(v.as_str());
            proof {
                reveal_strlit("S ");
                reveal_strlit(" ");
                assert(s@ =~= encode_rec(op@));
            }
            s
        },
        Op::Rm(k) => {
            let mut s = String::from_str("R ");
            s.append(k.as_str());
            proof {
                reveal_strlit("R ");
                assert(s@ =~= encode_rec(op@));
            }
            s
        },
        Op::Get(k) => {
            let mut s = String::from_str("G ");
            s.append(k.as_str());
            proof {
                reveal_strlit("G ");
                assert(s@ =~= encode_rec(op@));
            }
            s
        },
    }
}

/// Deserialize one log line; the exact inverse of `encode` on anything that
/// `encode` can produce, and an error on anything that no record decodes to.
pub fn decode(line: &str) -> (r: Result<Op, KvError>)
    ensures
        match r {
            Ok(op) => decode_rec(line@) == Some(op@),
            Err(e) => decode_rec(line@) is None && e == KvError::MalformedRecordError,
        },
{
    let n = line.unicode_len();
    if n < 2 {
        return Err(KvError::MalformedRecordError);
    }
    if line.get_char(1) != ' ' {
        return Err(KvError::MalformedRecordError);
    }
    let c0 = line.get_char(0);
    if c0 == 'R' {
        let key = line.substring_char(2, n).to_owned();
        proof {
            assert(key@ =~= line@.subrange(2, n as int));
        }
        Ok(Op::Rm(key))
    } else if c0 == 'G' {
        let key = line.substring_char(2, n).to_owned();
        proof {
            assert(key@ =~= line@.subrange(2, n as int));
        }
        Ok(Op::Get(key))
    } else if c0 == 'S' {
        let mut i: usize = 2;
        let mut acc: usize = 0;
        loop
            invariant
                2 <= i <= n,
                acc <= n,
                n == line@.len(),
                line@[0] == 'S',
                line@[1] == ' ',
                parse_len(line@.subrange(2, n as int), 0) == parse_len(
                    line@.subrange(i as int, n as int),
                    acc as nat,
                ),
            decreases n - i,
        {
            if i == n {
                proof {
                    assert(line@.subrange(i as int, n as int).len() == 0);
                }
                return Err(KvError::MalformedRecordError);
            }
            let c = line.get_char(i);
            proof {
                assert(line@.subrange(i as int, n as int)[0] == line@[i as int]);
                assert(line@.subrange(i as int, n as int).drop_first() =~= line@.subrange(
                    i as int + 1,
                    n as int,
                ));
            }
            if c == ' ' {
                if acc <= n - i - 1 {
                    let key = line.substring_char(i + 1, i + 1 + acc).to_owned();
                    let value = line.substring_char(i + 1 + acc, n).to_owned();
                    proof {
                        let rest = line@.subrange(i as int + 1, n as int);
                        assert(key@ =~= rest.subrange(0, acc as int));
                        assert(value@ =~= rest.subrange(acc as int, rest.len() as int));
                    }
                    return Ok(Op::Put(key, value));
                } else {
                    return Err(KvError::MalformedRecordError);
                }
            } else {
                let u = c as u32;
                if 48 <= u && u <= 57 {
                    let d = (u - 48) as usize;
                    let na: u128 = acc as u128 * 10 + d as u128;
                    if na > n as u128 {
                        proof {
                            let after = line@.subrange(i as int + 1, n as int);
                            lemma_parse_len_lower(after, (acc * 10 + d) as nat);
                        }
                        return Err(KvError::MalformedRecordError);
                    }
                    acc = na as usize;
                    i = i + 1;
                } else {
                    return Err(KvError::MalformedRecordError);
                }
            }
        }
    } else {
        Err(KvError::MalformedRecordError)
    }
}

/// What each error means, as text.
pub open spec fn error_text(e: KvError) -> Seq<char> {
    match e {
        KvError::InvalidCommandError => "Invalid command found at offset for get operation"@,
        KvError::InvalidKeyError => "Invalid key found at offset for get operation"@,
        KvError::KeyNotFoundError => "Key not found"@,
        KvError::MalformedRecordError => "Malformed record in log"@,
    }
}

impl KvError {
    /// A human-readable description of the error.
    pub fn message(&self) -> (r: String)
        ensures
            r@ == error_text(*self),
    {
        match self {
            KvError::InvalidCommandError => String::from_str(
                "Invalid command found at offset for get operation",
            ),
            KvError::InvalidKeyError => String::from_str(
                "Invalid key found at offset for get operation",
            ),
            KvError::KeyNotFoundError => String::from_str("Key not found"),
            KvError::MalformedRecordError => String::from_str("Malformed record in log"),
        }
    }
}

} // verus!
