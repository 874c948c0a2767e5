//! The record format of events in the log and in table files.
//!
//! Every field is written as base-16 digits drawn from the bytes `a..=p`, so a
//! record body never holds the terminator byte `|`. A record is
//! `seq (16 digits) tid (32 digits) action (1 digit) key payload |`, where a
//! byte string is its length (16 digits) followed by two digits per byte, and
//! a payload is `a` when absent or `b` followed by its byte string.
use crate::event::{opt_view, Action, Event, EventView};
use vstd::prelude::*;

verus! {

/// The byte that ends every record.
pub const TERMINATOR: u8 = 124;

/// The byte that stands for the digit zero.
pub const DIGIT_ZERO: u8 = 97;

pub open spec fn is_digit(b: u8) -> bool {
    97 <= b < 113
}

pub open spec fn all_digits(s: Seq<u8>) -> bool {
    forall|i: int| 0 <= i < s.len() ==> is_digit(#[trigger] s[i])
}

pub open spec fn pow16(n: nat) -> nat
    decreases n,
{
    if n == 0 {
        1
    } else {
        16 * pow16((n - 1) as nat)
    }
}

/// The `n` lowest base-16 digits of `x`, least significant first.
pub open spec fn digits(x: nat, n: nat) -> Seq<u8>
    decreases n,
{
    if n == 0 {
        Seq::empty()
    } else {
        seq![(97 + x % 16) as u8] + digits(x / 16, (n - 1) as nat)
    }
}

/// The number that a string of digits stands for, least significant first.
pub open spec fn value(s: Seq<u8>) -> nat
    decreases s.len(),
{
    if s.len() == 0 {
        0
    } else {
        (s[0] - 97) as nat + 16 * value(s.drop_first())
    }
}

/// Two digits per byte, low half first.
pub open spec fn byte_digits(s: Seq<u8>) -> Seq<u8> {
    Seq::new(
        2 * s.len(),
        |j: int|
            if j % 2 == 0 {
                (97 + s[j / 2] % 16) as u8
            } else {
                (97 + s[j / 2] / 16) as u8
            },
    )
}

pub open spec fn bytes_field(s: Seq<u8>) -> Seq<u8> {
    digits(s.len(), 16) + byte_digits(s)
}

pub open spec fn payload_field(p: Option<Seq<u8>>) -> Seq<u8> {
    match p {
        None => seq![97u8],
        Some(s) => seq![98u8] + bytes_field(s),
    }
}

/// The bytes of one record, terminator included.
pub open spec fn record(e: EventView) -> Seq<u8> {
    header(e.seq, e.tid, e.action) + bytes_field(e.key) + payload_field(e.payload) + seq![
        TERMINATOR,
    ]
}

/// The fixed-size start of a record: sequence number, id and action.
pub open spec fn header(seq: u64, tid: u128, action: Action) -> Seq<u8> {
    digits(seq as nat, 16) + digits(tid as nat, 32) + seq![(97 + action.code()) as u8]
}

/// The records of a sequence of events, one after the other.
pub open spec fn records(es: Seq<EventView>) -> Seq<u8>
    decreases es.len(),
{
    if es.len() == 0 {
        Seq::empty()
    } else {
        records(es.drop_last()) + record(es.last())
    }
}

/// An event whose byte strings are short enough for their length field.
pub open spec fn sized(e: EventView) -> bool {
    &&& e.key.len() <= usize::MAX
    &&& (e.payload is Some ==> e.payload->Some_0.len() <= usize::MAX)
}

/// `f` stands in `b` from position `p` on.
pub open spec fn at(b: Seq<u8>, p: int, f: Seq<u8>) -> bool {
    0 <= p && p + f.len() <= b.len() && b.subrange(p, p + f.len()) == f
}

pub open spec fn views(es: Seq<Event>) -> Seq<EventView> {
    es.map_values(|e: Event| e@)
}

/// The byte strings of an event in memory fit their length field.
pub proof fn lemma_event_sized(e: Event)
    ensures
        sized(e@),
{
    assert(e.key@.len() == e.key.len());
    match e.payload {
        Some(p) => {
            assert(p@.len() == p.len());
        },
        None => {},
    }
}

pub proof fn lemma_pow16_bounds()
    ensures
        pow16(16) == 0x1_0000_0000_0000_0000,
        pow16(32) == 0x1_0000_0000_0000_0000_0000_0000_0000_0000,
{
    reveal_with_fuel(pow16, 33);
}

pub proof fn lemma_pow16_mono(n: nat, m: nat)
    requires
        n <= m,
    ensures
        pow16(n) <= pow16(m),
    decreases m,
{
    if n < m {
        lemma_pow16_mono(n, (m - 1) as nat);
    }
}

pub proof fn lemma_digits_shape(x: nat, n: nat)
    ensures
        digits(x, n).len() == n,
        all_digits(digits(x, n)),
    decreases n,
{
    if n > 0 {
        lemma_digits_shape(x / 16, (n - 1) as nat);
    }
}

/// Digits of a number that fits read back as that number.
pub proof fn lemma_value_of_digits(x: nat, n: nat)
    requires
        x < pow16(n),
    ensures
        value(digits(x, n)) == x,
    decreases n,
{
    if n > 0 {
        let d = digits(x, n);
        assert(d.drop_first() =~= digits(x / 16, (n - 1) as nat));
        lemma_value_of_digits(x / 16, (n - 1) as nat);
    }
}

/// A string of digits is the digit string of its value.
pub proof fn lemma_digits_of_value(s: Seq<u8>)
    requires
        all_digits(s),
    ensures
        digits(value(s), s.len()) == s,
        value(s) < pow16(s.len()),
    decreases s.len(),
{
    if s.len() > 0 {
        let t = s.drop_first();
        assert(all_digits(t)) by {
            assert forall|i: int| 0 <= i < t.len() implies is_digit(#[trigger] t[i]) by {
                assert(t[i] == s[i + 1]);
            }
        }
        lemma_digits_of_value(t);
        let d: nat = (s[0] - 97) as nat;
        let w = value(t);
        assert(is_digit(s[0]));
        assert((d + 16 * w) % 16 == d && (d + 16 * w) / 16 == w) by (nonlinear_arith)
            requires
                d < 16,
        ;
        assert(digits(value(s), s.len()) =~= s);
    }
}

pub proof fn lemma_at_split(b: Seq<u8>, p: int, f: Seq<u8>, g: Seq<u8>)
    requires
        at(b, p, f + g),
    ensures
        at(b, p, f),
        at(b, p + f.len(), g),
{
    let whole = b.subrange(p, p + f.len() + g.len());
    assert(whole == f + g);
    assert(b.subrange(p, p + f.len()) =~= whole.subrange(0, f.len() as int));
    assert((f + g).subrange(0, f.len() as int) =~= f);
    assert(b.subrange(p + f.len(), p + f.len() + g.len()) =~= whole.subrange(
        f.len() as int,
        (f.len() + g.len()) as int,
    ));
    assert((f + g).subrange(f.len() as int, (f.len() + g.len()) as int) =~= g);
}

pub proof fn lemma_at_join(b: Seq<u8>, p: int, f: Seq<u8>, g: Seq<u8>)
    requires
        at(b, p, f),
        at(b, p + f.len(), g),
    ensures
        at(b, p, f + g),
{
    assert(b.subrange(p, p + f.len() + g.len()) =~= f + g) by {
        assert forall|i: int| 0 <= i < f.len() + g.len() implies #[trigger] b.subrange(
            p,
            p + f.len() + g.len(),
        )[i] == (f + g)[i] by {
            if i < f.len() {
                assert(b.subrange(p, p + f.len())[i] == f[i]);
            } else {
                assert(b.subrange(p + f.len(), p + f.len() + g.len())[i - f.len()] == g[i
                    - f.len()]);
            }
        }
    }
}

/// Byte strings are read back from their digits.
pub proof fn lemma_byte_digits_inj(s: Seq<u8>, t: Seq<u8>)
    requires
        byte_digits(s) == byte_digits(t),
    ensures
        s == t,
{
    assert(byte_digits(s).len() == 2 * s.len());
    assert(byte_digits(t).len() == 2 * t.len());
    assert(s.len() == t.len());
    assert forall|k: int| 0 <= k < s.len() implies s[k] == t[k] by {
        let x = s[k];
        let y = t[k];
        assert((2 * k) % 2 == 0 && (2 * k) / 2 == k);
        assert((2 * k + 1) % 2 == 1 && (2 * k + 1) / 2 == k);
        assert(byte_digits(s)[2 * k] == (97 + x % 16) as u8);
        assert(byte_digits(t)[2 * k] == (97 + y % 16) as u8);
        assert(byte_digits(s)[2 * k + 1] == (97 + x / 16) as u8);
        assert(byte_digits(t)[2 * k + 1] == (97 + y / 16) as u8);
        assert(x % 16 == y % 16 && x / 16 == y / 16);
        assert(x == 16 * (x / 16) + x % 16);
        assert(y == 16 * (y / 16) + y % 16);
    }
    assert(s =~= t);
}

pub proof fn lemma_digits_inj(x: nat, y: nat, n: nat)
    requires
        x < pow16(n),
        y < pow16(n),
        digits(x, n) == digits(y, n),
    ensures
        x == y,
{
    lemma_value_of_digits(x, n);
    lemma_value_of_digits(y, n);
}

pub proof fn lemma_bytes_field_unique(b: Seq<u8>, p: int, s: Seq<u8>, t: Seq<u8>)
    requires
        at(b, p, bytes_field(s)),
        at(b, p, bytes_field(t)),
        s.len() <= usize::MAX,
        t.len() <= usize::MAX,
    ensures
        s == t,
{
    lemma_pow16_bounds();
    lemma_digits_shape(s.len(), 16);
    lemma_digits_shape(t.len(), 16);
    lemma_at_split(b, p, digits(s.len(), 16), byte_digits(s));
    lemma_at_split(b, p, digits(t.len(), 16), byte_digits(t));
    lemma_digits_inj(s.len(), t.len(), 16);
    lemma_byte_digits_inj(s, t);
}

/// At most one record starts at any position.
pub proof fn lemma_record_unique(b: Seq<u8>, p: int, e: EventView, f: EventView)
    requires
        at(b, p, record(e)),
        at(b, p, record(f)),
        sized(e),
        sized(f),
    ensures
        e == f,
{
    lemma_pow16_bounds();
    let a1 = digits(e.seq as nat, 16);
    let a2 = digits(f.seq as nat, 16);
    let t1 = digits(e.tid as nat, 32);
    let t2 = digits(f.tid as nat, 32);
    let c1 = seq![(97 + e.action.code()) as u8];
    let c2 = seq![(97 + f.action.code()) as u8];
    let k1 = bytes_field(e.key);
    let k2 = bytes_field(f.key);
    let p1 = payload_field(e.payload);
    let p2 = payload_field(f.payload);
    let z = seq![TERMINATOR];
    assert(record(e) == a1 + t1 + c1 + k1 + p1 + z);
    assert(record(f) == a2 + t2 + c2 + k2 + p2 + z);
    lemma_digits_shape(e.seq as nat, 16);
    lemma_digits_shape(f.seq as nat, 16);
    lemma_digits_shape(e.tid as nat, 32);
    lemma_digits_shape(f.tid as nat, 32);
    lemma_at_split(b, p, a1 + t1 + c1 + k1 + p1, z);
    lemma_at_split(b, p, a2 + t2 + c2 + k2 + p2, z);
    lemma_at_split(b, p, a1 + t1 + c1 + k1, p1);
    lemma_at_split(b, p, a2 + t2 + c2 + k2, p2);
    lemma_at_split(b, p, a1 + t1 + c1, k1);
    lemma_at_split(b, p, a2 + t2 + c2, k2);
    lemma_at_split(b, p, a1 + t1, c1);
    lemma_at_split(b, p, a2 + t2, c2);
    lemma_at_split(b, p, a1, t1);
    lemma_at_split(b, p, a2, t2);
    assert(a1 == a2);
    lemma_digits_inj(e.seq as nat, f.seq as nat, 16);
    assert(t1 == t2);
    lemma_digits_inj(e.tid as nat, f.tid as nat, 32);
    assert(c1[0] == c2[0]) by {
        assert(b.subrange(p + 48, p + 49)[0] == c1[0]);
        assert(b.subrange(p + 48, p + 49)[0] == c2[0]);
    }
    assert(e.action == f.action);
    lemma_bytes_field_unique(b, p + 49, e.key, f.key);
    let q = p + 49 + k1.len();
    assert(p1[0] == b[q] && p2[0] == b[q]) by {
        assert(b.subrange(q, q + p1.len())[0] == p1[0]);
        assert(b.subrange(q, q + p2.len())[0] == p2[0]);
    }
    match e.payload {
        Some(s) => {
            let t = f.payload->Some_0;
            lemma_at_split(b, q, seq![98u8], bytes_field(s));
            lemma_at_split(b, q, seq![98u8], bytes_field(t));
            lemma_bytes_field_unique(b, q + 1, s, t);
        },
        None => {},
    }
}

/// Appends the `n` lowest base-16 digits of `x`.
pub fn push_digits(out: &mut Vec<u8>, x: u128, n: usize)
    ensures
        final(out)@ == old(out)@ + digits(x as nat, n as nat),
{
    let ghost start = out@;
    let mut v: u128 = x;
    let mut i: usize = 0;
    while i < n
        invariant
            i <= n,
            out@ + digits(v as nat, (n - i) as nat) == start + digits(x as nat, n as nat),
        decreases n - i,
    {
        let d: u8 = (v % 16) as u8;
        proof {
            let rest = digits(v as nat / 16, (n - i - 1) as nat);
            assert(digits(v as nat, (n - i) as nat) == seq![(97 + v as nat % 16) as u8] + rest);
            assert(out@.push((97 + d) as u8) + rest =~= out@ + (seq![(97 + v as nat % 16) as u8]
                + rest));
        }
        out.push(97 + d);
        v = v / 16;
        i = i + 1;
    }
    assert(out@ =~= out@ + digits(v as nat, 0));
}

/// Reads `n` digits from position `pos`: their value when they are all there
/// and all digits.
pub fn read_digits(b: &Vec<u8>, pos: usize, n: usize) -> (r: Option<u128>)
    requires
        n <= 32,
    ensures
        r == (if pos + n <= b.len() && all_digits(b@.subrange(pos as int, pos + n)) {
            Some(value(b@.subrange(pos as int, pos + n)) as u128)
        } else {
            None
        }),
        r is Some ==> value(b@.subrange(pos as int, pos + n)) < pow16(n as nat),
{
    if n > b.len() || pos > b.len() - n {
        return None;
    }
    let end: usize = pos + n;
    let mut i: usize = n;
    let mut acc: u128 = 0;
    proof {
        lemma_pow16_bounds();
        assert(b@.subrange(end as int, end as int) =~= Seq::<u8>::empty());
    }
    while i > 0
        invariant
            i <= n <= 32,
            end == pos + n <= b.len(),
            all_digits(b@.subrange(pos + i, end as int)),
            acc as nat == value(b@.subrange(pos + i, end as int)),
            acc < pow16((n - i) as nat),
            pow16(32) == 0x1_0000_0000_0000_0000_0000_0000_0000_0000,
        decreases i,
    {
        let c = b[pos + i - 1];
        let ghost sub = b@.subrange(pos + i - 1, end as int);
        if c < 97 || c >= 113 {
            proof {
                let whole = b@.subrange(pos as int, end as int);
                assert(whole[i - 1] == c);
            }
            return None;
        }
        proof {
            assert(sub.drop_first() =~= b@.subrange(pos + i, end as int));
            assert(sub[0] == c);
            assert forall|j: int| 0 <= j < sub.len() implies is_digit(#[trigger] sub[j]) by {
                if j > 0 {
                    assert(sub[j] == b@.subrange(pos + i, end as int)[j - 1]);
                }
            }
            lemma_pow16_mono((n - i + 1) as nat, 32);
        }
        acc = (c - 97) as u128 + 16 * acc;
        i = i - 1;
    }
    Some(acc)
}

/// Reads a byte string (length, then two digits per byte) from `pos`:
/// the string and the position after it.
pub fn read_bytes(b: &Vec<u8>, pos: usize) -> (r: Option<(Vec<u8>, usize)>)
    ensures
        r is Some ==> {
            let (s, end) = r->Some_0;
            &&& at(b@, pos as int, bytes_field(s@))
            &&& end == pos + bytes_field(s@).len()
        },
        forall|s: Seq<u8>|
            s.len() <= usize::MAX && at(b@, pos as int, #[trigger] bytes_field(s)) ==> (r is Some
                && r->Some_0.0@ == s),
{
    proof {
        lemma_pow16_bounds();
    }
    let len = match read_digits(b, pos, 16) {
        Some(l) => l,
        None => {
            proof {
                assert forall|s: Seq<u8>|
                    s.len() <= usize::MAX && at(b@, pos as int, #[trigger] bytes_field(
                        s,
                    )) implies false by {
                    lemma_digits_shape(s.len(), 16);
                    lemma_at_split(b@, pos as int, digits(s.len(), 16), byte_digits(s));
                }
            }
            return None;
        },
    };
    let ghost head = b@.subrange(pos as int, pos + 16);
    proof {
        lemma_digits_of_value(head);
        assert forall|s: Seq<u8>|
            s.len() <= usize::MAX && at(b@, pos as int, #[trigger] bytes_field(s)) implies s.len()
            == len && pos + 16 + 2 * s.len() <= b.len() by {
            lemma_digits_shape(s.len(), 16);
            lemma_at_split(b@, pos as int, digits(s.len(), 16), byte_digits(s));
            lemma_value_of_digits(s.len(), 16);
        }
    }
    let start: usize = pos + 16;
    if len > ((b.len() - start) / 2) as u128 {
        return None;
    }
    let count: usize = len as usize;
    let mut out: Vec<u8> = Vec::with_capacity(count);
    let mut k: usize = 0;
    while k < count
        invariant
            k <= count,
            start == pos + 16,
            start + 2 * count <= b.len(),
            out@.len() == k,
            byte_digits(out@) == b@.subrange(start as int, start + 2 * k),
            forall|s: Seq<u8>|
                s.len() <= usize::MAX && at(b@, pos as int, #[trigger] bytes_field(s)) ==> s.len()
                    == count && out@ == s.subrange(0, k as int),
        decreases count - k,
    {
        let lo = b[start + 2 * k];
        let hi = b[start + 2 * k + 1];
        if lo < 97 || lo >= 113 || hi < 97 || hi >= 113 {
            proof {
                assert forall|s: Seq<u8>|
                    s.len() <= usize::MAX && at(b@, pos as int, #[trigger] bytes_field(
                        s,
                    )) implies false by {
                    lemma_digits_shape(s.len(), 16);
                    lemma_at_split(b@, pos as int, digits(s.len(), 16), byte_digits(s));
                    let bd = byte_digits(s);
                    assert(bd[2 * k as int] == b@[start + 2 * k]) by {
                        assert(b@.subrange(start as int, start + bd.len())[2 * k as int]
                            == b@[start + 2 * k]);
                    }
                    assert(bd[2 * k + 1] == b@[start + 2 * k + 1]) by {
                        assert(b@.subrange(start as int, start + bd.len())[2 * k + 1] == b@[start
                            + 2 * k + 1]);
                    }
                    assert((2 * k as int) % 2 == 0 && (2 * k as int) / 2 == k);
                    assert((2 * k + 1) % 2 == 1 && (2 * k + 1) / 2 == k as int);
                }
            }
            return None;
        }
        let byte: u8 = (lo - 97) + 16 * (hi - 97);
        let ghost prev = out@;
        out.push(byte);
        proof {
            assert(byte % 16 == lo - 97 && byte / 16 == hi - 97);
            assert(byte_digits(out@) =~= b@.subrange(start as int, start + 2 * k + 2)) by {
                assert forall|j: int| 0 <= j < 2 * k + 2 implies #[trigger] byte_digits(out@)[j]
                    == b@[start + j] by {
                    if j < 2 * k {
                        assert(byte_digits(prev)[j] == b@.subrange(start as int, start + 2 * k)[j]);
                        assert(j / 2 < k);
                        assert(out@[j / 2] == prev[j / 2]);
                    } else {
                        assert(j / 2 == k);
                    }
                }
            }
            assert forall|s: Seq<u8>|
                s.len() <= usize::MAX && at(b@, pos as int, #[trigger] bytes_field(
                    s,
                )) implies s.len() == count && out@ == s.subrange(0, k + 1) by {
                lemma_digits_shape(s.len(), 16);
                lemma_at_split(b@, pos as int, digits(s.len(), 16), byte_digits(s));
                let bd = byte_digits(s);
                assert(bd[2 * k as int] == b@[start + 2 * k]) by {
                    assert(b@.subrange(start as int, start + bd.len())[2 * k as int] == b@[start
                        + 2 * k]);
                }
                assert(bd[2 * k + 1] == b@[start + 2 * k + 1]) by {
                    assert(b@.subrange(start as int, start + bd.len())[2 * k + 1] == b@[start + 2
                        * k + 1]);
                }
                assert((2 * k as int) % 2 == 0 && (2 * k as int) / 2 == k);
                assert((2 * k + 1) % 2 == 1 && (2 * k + 1) / 2 == k as int);
                let x = s[k as int];
                assert(x == 16 * (x / 16) + x % 16);
                assert(out@ =~= s.subrange(0, k + 1));
            }
        }
        k = k + 1;
    }
    proof {
        assert(digits(len as nat, 16) == head);
        lemma_at_join(b@, pos as int, digits(out@.len(), 16), byte_digits(out@));
        assert forall|s: Seq<u8>|
            s.len() <= usize::MAX && at(b@, pos as int, #[trigger] bytes_field(s)) implies out@
            == s by {
            assert(s.subrange(0, s.len() as int) =~= s);
        }
    }
    Some((out, start + 2 * count))
}

/// The parts of a record, each where it stands.
pub open spec fn record_parts(b: Seq<u8>, p: int, e: EventView) -> bool {
    let q = p + 49 + bytes_field(e.key).len();
    let z = q + payload_field(e.payload).len();
    &&& at(b, p, header(e.seq, e.tid, e.action))
    &&& at(b, p + 49, bytes_field(e.key))
    &&& at(b, q, payload_field(e.payload))
    &&& 0 <= z < b.len() && b[z] == TERMINATOR
}

pub proof fn lemma_header_len(seq: u64, tid: u128, action: Action)
    ensures
        header(seq, tid, action).len() == 49,
{
    lemma_digits_shape(seq as nat, 16);
    lemma_digits_shape(tid as nat, 32);
}

pub proof fn lemma_record_len(e: EventView)
    ensures
        record(e).len() == 50 + bytes_field(e.key).len() + payload_field(e.payload).len(),
        payload_field(e.payload).len() >= 1,
        bytes_field(e.key).len() >= 16,
{
    lemma_header_len(e.seq, e.tid, e.action);
    lemma_digits_shape(e.key.len(), 16);
    match e.payload {
        Some(s) => lemma_digits_shape(s.len(), 16),
        None => {},
    }
}

pub proof fn lemma_record_parts(b: Seq<u8>, p: int, e: EventView)
    ensures
        at(b, p, record(e)) <==> record_parts(b, p, e),
{
    let h = header(e.seq, e.tid, e.action);
    let k = bytes_field(e.key);
    let pf = payload_field(e.payload);
    let z = seq![TERMINATOR];
    lemma_header_len(e.seq, e.tid, e.action);
    let q = p + 49 + k.len();
    if at(b, p, record(e)) {
        lemma_at_split(b, p, h + k + pf, z);
        lemma_at_split(b, p, h + k, pf);
        lemma_at_split(b, p, h, k);
        assert(b.subrange(q + pf.len(), q + pf.len() + 1)[0] == b[q + pf.len()]);
    }
    if record_parts(b, p, e) {
        assert(at(b, q + pf.len(), z)) by {
            assert(b.subrange(q + pf.len(), q + pf.len() + 1) =~= z);
        }
        lemma_at_join(b, p, h, k);
        lemma_at_join(b, p, h + k, pf);
        lemma_at_join(b, p, h + k + pf, z);
    }
}

/// Appends a byte string: its length, then two digits per byte.
pub fn push_bytes(out: &mut Vec<u8>, s: &Vec<u8>)
    ensures
        final(out)@ == old(out)@ + bytes_field(s@),
{
    let ghost start = out@;
    push_digits(out, s.len() as u128, 16);
    let ghost mid = out@;
    let mut k: usize = 0;
    while k < s.len()
        invariant
            k <= s.len(),
            mid == start + digits(s@.len(), 16),
            out@ == mid + byte_digits(s@.subrange(0, k as int)),
        decreases s.len() - k,
    {
        let x = s[k];
        let ghost prev = out@;
        out.push(97 + x % 16);
        out.push(97 + x / 16);
        proof {
            let pre = s@.subrange(0, k as int);
            let nxt = s@.subrange(0, k + 1);
            assert(byte_digits(nxt) =~= byte_digits(pre).push((97 + x % 16) as u8).push(
                (97 + x / 16) as u8,
            )) by {
                assert forall|j: int| 0 <= j < 2 * k + 2 implies #[trigger] byte_digits(nxt)[j] == (
                byte_digits(pre).push((97 + x % 16) as u8).push((97 + x / 16) as u8))[j] by {
                    if j < 2 * k {
                        assert(j / 2 < k);
                    } else {
                        assert(j / 2 == k);
                    }
                }
            }
            assert(out@ =~= mid + byte_digits(nxt));
        }
        k = k + 1;
    }
    assert(s@.subrange(0, s.len() as int) =~= s@);
    assert(out@ =~= start + bytes_field(s@));
}

/// Appends the record of an event.
pub fn encode_record(e: &Event, out: &mut Vec<u8>)
    ensures
        final(out)@ == old(out)@ + record(e@),
{
    let ghost start = out@;
    push_digits(out, e.seq as u128, 16);
    push_digits(out, e.tid, 32);
    let code: u8 = match e.action {
        Action::Read => 0,
        Action::Write => 1,
        Action::Delete => 2,
    };
    out.push(97 + code);
    push_bytes(out, &e.key);
    match &e.payload {
        None => {
            out.push(97);
        },
        Some(p) => {
            out.push(98);
            push_bytes(out, p);
        },
    }
    out.push(TERMINATOR);
    assert(out@ =~= start + record(e@));
}

/// The record of an event, on its own.
pub fn encode(e: &Event) -> (r: Vec<u8>)
    ensures
        r@ == record(e@),
{
    let mut out: Vec<u8> = Vec::new();
    encode_record(e, &mut out);
    assert(out@ =~= record(e@));
    out
}

/// Reads the header that starts at `pos`.
pub fn read_header(b: &Vec<u8>, pos: usize) -> (r: Option<(u64, u128, Action)>)
    ensures
        r is Some ==> at(b@, pos as int, header(r->Some_0.0, r->Some_0.1, r->Some_0.2)) && pos + 49
            <= b.len(),
        forall|seq: u64, tid: u128, action: Action|
            #[trigger] at(b@, pos as int, header(seq, tid, action)) ==> r == Some((seq, tid, action)),
{
    proof {
        lemma_pow16_bounds();
        assert forall|seq: u64, tid: u128, action: Action|
            #[trigger] at(b@, pos as int, header(seq, tid, action)) implies pos + 49 <= b.len()
            && at(b@, pos as int, digits(seq as nat, 16)) && at(b@, pos + 16, digits(tid as nat, 32))
            && b@[pos + 48] == (97 + action.code()) as u8 by {
            lemma_header_len(seq, tid, action);
            lemma_digits_shape(seq as nat, 16);
            lemma_digits_shape(tid as nat, 32);
            let c = seq![(97 + action.code()) as u8];
            lemma_at_split(b@, pos as int, digits(seq as nat, 16) + digits(tid as nat, 32), c);
            lemma_at_split(b@, pos as int, digits(seq as nat, 16), digits(tid as nat, 32));
            assert(b@.subrange(pos + 48, pos + 49)[0] == b@[pos + 48]);
        }
    }
    if pos > b.len() || b.len() - pos < 49 {
        return None;
    }
    let ghost s1 = b@.subrange(pos as int, pos + 16);
    let ghost s2 = b@.subrange(pos + 16, pos + 48);
    let seq = match read_digits(b, pos, 16) {
        Some(v) => v,
        None => {
            proof {
                assert forall|seq: u64, tid: u128, action: Action|
                    #[trigger] at(b@, pos as int, header(seq, tid, action)) implies false by {
                    lemma_digits_shape(seq as nat, 16);
                }
            }
            return None;
        },
    };
    let tid = match read_digits(b, pos + 16, 32) {
        Some(v) => v,
        None => {
            proof {
                assert forall|seq: u64, tid: u128, action: Action|
                    #[trigger] at(b@, pos as int, header(seq, tid, action)) implies false by {
                    lemma_digits_shape(tid as nat, 32);
                }
            }
            return None;
        },
    };
    let c = b[pos + 48];
    let action = if c == 97 {
        Action::Read
    } else if c == 98 {
        Action::Write
    } else if c == 99 {
        Action::Delete
    } else {
        return None;
    };
    proof {
        lemma_digits_of_value(s1);
        lemma_digits_of_value(s2);
        assert forall|q: u64, t: u128, a: Action|
            #[trigger] at(b@, pos as int, header(q, t, a)) implies q == seq && t == tid && a
            == action by {
            lemma_digits_shape(q as nat, 16);
            lemma_digits_shape(t as nat, 32);
            assert(s1 == digits(q as nat, 16));
            assert(s2 == digits(t as nat, 32));
            lemma_value_of_digits(q as nat, 16);
            lemma_value_of_digits(t as nat, 32);
        }
        let c1 = seq![(97 + action.code()) as u8];
        assert(at(b@, pos + 48, c1)) by {
            assert(b@.subrange(pos + 48, pos + 49) =~= c1);
        }
        lemma_at_join(b@, pos as int, digits(seq as nat, 16), digits(tid as nat, 32));
        lemma_at_join(b@, pos as int, digits(seq as nat, 16) + digits(tid as nat, 32), c1);
    }
    Some((seq as u64, tid, action))
}

/// Reads the payload field that starts at `pos`.
pub fn read_payload(b: &Vec<u8>, pos: usize) -> (r: Option<(Option<Vec<u8>>, usize)>)
    ensures
        r is Some ==> {
            let (p, end) = r->Some_0;
            &&& at(b@, pos as int, payload_field(opt_view(p)))
            &&& end == pos + payload_field(opt_view(p)).len()
            &&& (p is Some ==> p->Some_0@.len() <= usize::MAX)
        },
        forall|p: Option<Seq<u8>>|
            (p is Some ==> p->Some_0.len() <= usize::MAX) && #[trigger] at(
                b@,
                pos as int,
                payload_field(p),
            ) ==> (r is Some && opt_view(r->Some_0.0) == p),
{
    if pos >= b.len() {
        return None;
    }
    let tag = b[pos];
    proof {
        assert forall|p: Option<Seq<u8>>| #[trigger]
            at(b@, pos as int, payload_field(p)) implies b@[pos as int] == (if p is Some {
            98u8
        } else {
            97u8
        }) by {
            assert(b@.subrange(pos as int, pos + payload_field(p).len())[0] == b@[pos as int]);
        }
    }
    if tag == 97 {
        proof {
            assert(b@.subrange(pos as int, pos + 1) =~= seq![97u8]);
        }
        Some((None, pos + 1))
    } else if tag == 98 {
        proof {
            assert forall|s: Seq<u8>| #[trigger]
                at(b@, pos as int, payload_field(Some(s))) implies at(b@, pos + 1, bytes_field(s)) by {
                lemma_at_split(b@, pos as int, seq![98u8], bytes_field(s));
            }
        }
        match read_bytes(b, pos + 1) {
            Some((s, end)) => {
                proof {
                    assert(at(b@, pos as int, seq![98u8])) by {
                        assert(b@.subrange(pos as int, pos + 1) =~= seq![98u8]);
                    }
                    lemma_at_join(b@, pos as int, seq![98u8], bytes_field(s@));
                }
                Some((Some(s), end))
            },
            None => None,
        }
    } else {
        None
    }
}

/// Reads the record that starts at `pos`: the event and the position after
/// its terminator, or `None` when no whole record stands there.
pub fn decode_record(b: &Vec<u8>, pos: usize) -> (r: Option<(Event, usize)>)
    ensures
        r is Some ==> {
            let (e, end) = r->Some_0;
            &&& sized(e@)
            &&& at(b@, pos as int, record(e@))
            &&& end == pos + record(e@).len()
        },
        forall|e: EventView|
            sized(e) && #[trigger] at(b@, pos as int, record(e)) ==> (r is Some && r->Some_0.0@
                == e),
{
    proof {
        assert forall|e: EventView| #[trigger] at(b@, pos as int, record(e)) implies record_parts(
            b@,
            pos as int,
            e,
        ) by {
            lemma_record_parts(b@, pos as int, e);
        }
    }
    let (seq, tid, action) = match read_header(b, pos) {
        Some(h) => h,
        None => {
            return None;
        },
    };
    proof {
        lemma_header_len(seq, tid, action);
    }
    let (key, q) = match read_bytes(b, pos + 49) {
        Some(kq) => kq,
        None => {
            return None;
        },
    };
    let (payload, z) = match read_payload(b, q) {
        Some(pz) => pz,
        None => {
            proof {
                assert forall|e: EventView|
                    sized(e) && #[trigger] at(b@, pos as int, record(e)) implies false by {
                    assert(e.key == key@);
                }
            }
            return None;
        },
    };
    if z >= b.len() || b[z] != TERMINATOR {
        proof {
            assert forall|e: EventView|
                sized(e) && #[trigger] at(b@, pos as int, record(e)) implies false by {
                assert(e.key == key@);
                assert(e.payload == opt_view(payload));
            }
        }
        return None;
    }
    let e = Event { seq, tid, key, action, payload };
    proof {
        assert(record_parts(b@, pos as int, e@));
        lemma_record_parts(b@, pos as int, e@);
        lemma_record_len(e@);
        assert forall|f: EventView| sized(f) && #[trigger] at(b@, pos as int, record(f)) implies f
            == e@ by {
            assert(f.key == key@);
            assert(f.payload == opt_view(payload));
        }
    }
    Some((e, z + 1))
}

/// `r` is what reading `b` record by record gives: the whole records at its
/// start, up to the first position where no whole record stands.
pub open spec fn reads_as(b: Seq<u8>, r: Seq<EventView>) -> bool {
    &&& forall|i: int| 0 <= i < r.len() ==> sized(#[trigger] r[i])
    &&& at(b, 0, records(r))
    &&& forall|e: EventView| sized(e) ==> !#[trigger] at(b, records(r).len() as int, record(e))
}

/// Reads records from the start of `b` until no whole record follows; a
/// truncated record at the end is left out.
pub fn decode_all(b: &Vec<u8>) -> (r: Vec<Event>)
    ensures
        reads_as(b@, views(r@)),
{
    let mut out: Vec<Event> = Vec::new();
    let mut pos: usize = 0;
    proof {
        assert(b@.subrange(0, 0) =~= records(views(out@)));
    }
    loop
        invariant
            pos <= b.len(),
            at(b@, 0, records(views(out@))),
            records(views(out@)).len() == pos,
            forall|i: int| 0 <= i < out@.len() ==> sized(#[trigger] views(out@)[i]),
        decreases b.len() - pos,
    {
        match decode_record(b, pos) {
            Some((e, end)) => {
                let ghost prev = views(out@);
                proof {
                    lemma_record_len(e@);
                    lemma_at_join(b@, 0, records(prev), record(e@));
                }
                out.push(e);
                proof {
                    assert(views(out@) =~= prev.push(out@.last()@));
                    assert(views(out@).drop_last() =~= prev);
                }
                pos = end;
            },
            None => {
                return out;
            },
        }
    }
}

pub proof fn lemma_records_prefix(b: Seq<u8>, es: Seq<EventView>, k: int)
    requires
        at(b, 0, records(es)),
        0 <= k <= es.len(),
    ensures
        at(b, 0, records(es.subrange(0, k))),
        k < es.len() ==> at(b, records(es.subrange(0, k)).len() as int, record(es[k])),
    decreases es.len() - k,
{
    if k < es.len() {
        let d = es.drop_last();
        assert(records(es) == records(d) + record(es.last()));
        lemma_at_split(b, 0, records(d), record(es.last()));
        lemma_records_prefix(b, d, k);
        assert(d.subrange(0, k) =~= es.subrange(0, k));
        if k == es.len() - 1 {
            assert(d =~= es.subrange(0, k));
        } else {
            assert(d[k] == es[k]);
        }
    } else {
        assert(es.subrange(0, k) =~= es);
    }
}

pub proof fn lemma_records_agree(b: Seq<u8>, r: Seq<EventView>, es: Seq<EventView>)
    requires
        at(b, 0, records(r)),
        at(b, 0, records(es)),
        r.len() <= es.len(),
        forall|i: int| 0 <= i < r.len() ==> sized(#[trigger] r[i]),
        forall|i: int| 0 <= i < es.len() ==> sized(#[trigger] es[i]),
    ensures
        r == es.subrange(0, r.len() as int),
    decreases r.len(),
{
    if r.len() > 0 {
        let n = r.len() - 1;
        let d = r.drop_last();
        assert(records(r) == records(d) + record(r.last()));
        lemma_at_split(b, 0, records(d), record(r.last()));
        lemma_records_agree(b, d, es);
        lemma_records_prefix(b, es, n);
        assert(sized(r[n]));
        assert(sized(es[n]));
        lemma_record_unique(b, records(d).len() as int, r.last(), es[n]);
        assert(r =~= es.subrange(0, r.len() as int));
    } else {
        assert(r =~= es.subrange(0, 0));
    }
}

/// Reading back the records of a sequence of events, followed by bytes
/// that hold no terminator (a record cut short), gives those events.
pub proof fn lemma_read_back(es: Seq<EventView>, tail: Seq<u8>, r: Seq<EventView>)
    requires
        forall|i: int| 0 <= i < es.len() ==> sized(#[trigger] es[i]),
        forall|i: int| 0 <= i < tail.len() ==> tail[i] != TERMINATOR,
        reads_as(records(es) + tail, r),
    ensures
        r == es,
{
    let b = records(es) + tail;
    assert(at(b, 0, records(es))) by {
        assert(b.subrange(0, records(es).len() as int) =~= records(es));
    }
    if r.len() < es.len() {
        lemma_records_agree(b, r, es);
        lemma_records_prefix(b, es, r.len() as int);
        assert(false);
    } else if r.len() > es.len() {
        lemma_records_agree(b, es, r);
        let n = es.len() as int;
        lemma_records_prefix(b, r, n);
        assert(r.subrange(0, n) == es);
        let x = r[n];
        let p = records(es).len() as int;
        lemma_record_len(x);
        let z = p + record(x).len() - 1;
        assert(record(x)[record(x).len() - 1] == TERMINATOR);
        assert(b.subrange(p, p + record(x).len())[record(x).len() - 1] == b[z]);
        assert(b[z] == tail[z - p]);
        assert(false);
    } else {
        lemma_records_agree(b, r, es);
        assert(r =~= es.subrange(0, r.len() as int));
        assert(es.subrange(0, es.len() as int) =~= es);
    }
}

/// Reading a byte string record by record has one outcome.
pub proof fn lemma_reads_as_unique(b: Seq<u8>, r1: Seq<EventView>, r2: Seq<EventView>)
    requires
        reads_as(b, r1),
        reads_as(b, r2),
    ensures
        r1 == r2,
{
    if r1.len() <= r2.len() {
        lemma_records_agree(b, r1, r2);
        if r1.len() < r2.len() {
            lemma_records_prefix(b, r2, r1.len() as int);
            assert(sized(r2[r1.len() as int]));
            assert(false);
        }
        assert(r1 =~= r2);
    } else {
        lemma_records_agree(b, r2, r1);
        lemma_records_prefix(b, r1, r2.len() as int);
        assert(sized(r1[r2.len() as int]));
        assert(false);
    }
}

} // verus!
