//! The wire form of a node record. A record is a sequence of tagged fields in
//! the Protocol Buffers encoding: `key`, `value`, `left` and `right` are the
//! length-delimited fields 1 to 4, `height` and `rank` the varint fields 5 and 6.
//! A field that is empty or zero is left out.

use vstd::prelude::*;
use vstd::slice::{slice_subrange, slice_to_vec};

verus! {

/// A node as it is stored: key and value as their marshalled bytes, the
/// children as their hashes (empty where there is no child).
pub struct Record {
    pub key: Vec<u8>,
    pub value: Vec<u8>,
    pub left: Vec<u8>,
    pub right: Vec<u8>,
    pub height: u32,
    pub rank: u64,
}

/// A [`Record`] with its byte strings as sequences.
pub struct RecordView {
    pub key: Seq<u8>,
    pub value: Seq<u8>,
    pub left: Seq<u8>,
    pub right: Seq<u8>,
    pub height: u32,
    pub rank: u64,
}

impl View for Record {
    type V = RecordView;

    open spec fn view(&self) -> RecordView {
        RecordView {
            key: self.key@,
            value: self.value@,
            left: self.left@,
            right: self.right@,
            height: self.height,
            rank: self.rank,
        }
    }
}

/// The tag of the key: field 1, length-delimited.
pub const TAG_KEY: u8 = 0x0a;

/// The tag of the value: field 2, length-delimited.
pub const TAG_VALUE: u8 = 0x12;

/// The tag of the left child's hash: field 3, length-delimited.
pub const TAG_LEFT: u8 = 0x1a;

/// The tag of the right child's hash: field 4, length-delimited.
pub const TAG_RIGHT: u8 = 0x22;

/// The tag of the height: field 5, a varint.
pub const TAG_HEIGHT: u8 = 0x28;

/// The tag of the rank: field 6, a varint.
pub const TAG_RANK: u8 = 0x30;

/// The record in which every field is empty or zero.
pub open spec fn blank() -> RecordView {
    RecordView {
        key: Seq::empty(),
        value: Seq::empty(),
        left: Seq::empty(),
        right: Seq::empty(),
        height: 0,
        rank: 0,
    }
}

/// A number in base 128, lowest digit first, every byte but the last with
/// its top bit set.
pub open spec fn varint(n: nat) -> Seq<u8>
    decreases n,
{
    if n < 128 {
        seq![n as u8]
    } else {
        seq![(n % 128 + 128) as u8] + varint(n / 128)
    }
}

/// The number that starts at `pos`, read from at most `limit` bytes, and the
/// position after it.
pub open spec fn read_varint(b: Seq<u8>, pos: int, limit: nat) -> Option<(nat, int)>
    decreases limit,
{
    if limit == 0 || pos < 0 || pos >= b.len() {
        None
    } else if b[pos] < 128 {
        Some((b[pos] as nat, pos + 1))
    } else {
        match read_varint(b, pos + 1, (limit - 1) as nat) {
            None => None,
            Some((high, next)) => Some(((b[pos] - 128) as nat + 128 * high, next)),
        }
    }
}

/// A 64-bit number at `pos`: a varint of at most ten bytes whose value fits.
pub open spec fn read_u64(b: Seq<u8>, pos: int) -> Option<(u64, int)> {
    match read_varint(b, pos, 10) {
        Some((n, next)) => if n <= u64::MAX {
            Some((n as u64, next))
        } else {
            None
        },
        None => None,
    }
}

/// A length-delimited field, left out when `data` is empty.
pub open spec fn bytes_field(tag: u8, data: Seq<u8>) -> Seq<u8> {
    if data.len() == 0 {
        Seq::empty()
    } else {
        seq![tag] + varint(data.len()) + data
    }
}

/// A varint field, left out when `n` is zero.
pub open spec fn number_field(tag: u8, n: nat) -> Seq<u8> {
    if n == 0 {
        Seq::empty()
    } else {
        seq![tag] + varint(n)
    }
}

/// The bytes of a record: its fields in the order of their numbers.
pub open spec fn encoding(r: RecordView) -> Seq<u8> {
    bytes_field(TAG_KEY, r.key) + bytes_field(TAG_VALUE, r.value) + bytes_field(TAG_LEFT, r.left)
        + bytes_field(TAG_RIGHT, r.right) + number_field(TAG_HEIGHT, r.height as nat)
        + number_field(TAG_RANK, r.rank as nat)
}

/// The record `acc` with the varint field `field` set to `n`. Fields 1 to 4
/// are no numbers, the height has 32 bits, and any other field is passed over.
pub open spec fn with_number(acc: RecordView, field: nat, n: u64) -> Option<RecordView> {
    if field == 5 {
        if n <= u32::MAX {
            Some(RecordView { height: n as u32, ..acc })
        } else {
            None
        }
    } else if field == 6 {
        Some(RecordView { rank: n, ..acc })
    } else if 1 <= field <= 4 {
        None
    } else {
        Some(acc)
    }
}

/// The record `acc` with the length-delimited field `field` set to `data`.
/// Fields 5 and 6 are no byte strings, and any other field is passed over.
pub open spec fn with_bytes(acc: RecordView, field: nat, data: Seq<u8>) -> Option<RecordView> {
    if field == 1 {
        Some(RecordView { key: data, ..acc })
    } else if field == 2 {
        Some(RecordView { value: data, ..acc })
    } else if field == 3 {
        Some(RecordView { left: data, ..acc })
    } else if field == 4 {
        Some(RecordView { right: data, ..acc })
    } else if 5 <= field <= 6 {
        None
    } else {
        Some(acc)
    }
}

/// The record that the fields from `pos` on make of `acc`. Fields may come
/// in any order and a later one overrides an earlier one; fields of other
/// numbers are passed over. There is no record where a field is cut short, has
/// the wire type of a group or the number 0, or where one of the six fields has
/// the wrong wire type.
pub open spec fn parse_from(b: Seq<u8>, pos: int, acc: RecordView) -> Option<RecordView>
    decreases b.len() - pos,
{
    if pos < 0 || pos > b.len() {
        None
    } else if pos == b.len() {
        Some(acc)
    } else {
        match read_u64(b, pos) {
            None => None,
            Some((tag, p1)) => {
                let field = (tag / 8) as nat;
                let wire = tag % 8;
                if field == 0 || p1 <= pos {
                    None
                } else if wire == 0 {
                    match read_u64(b, p1) {
                        None => None,
                        Some((n, p2)) => match with_number(acc, field, n) {
                            None => None,
                            Some(next) => if p2 <= p1 || p2 > b.len() {
                                None
                            } else {
                                parse_from(b, p2, next)
                            },
                        },
                    }
                } else if wire == 2 {
                    match read_u64(b, p1) {
                        None => None,
                        Some((n, p2)) => if p2 <= p1 || p2 + n > b.len() {
                            None
                        } else {
                            match with_bytes(acc, field, b.subrange(p2, p2 + n)) {
                                None => None,
                                Some(next) => parse_from(b, p2 + n, next),
                            }
                        },
                    }
                } else if wire == 1 {
                    if 1 <= field <= 6 || p1 + 8 > b.len() {
                        None
                    } else {
                        parse_from(b, p1 + 8, acc)
                    }
                } else if wire == 5 {
                    if 1 <= field <= 6 || p1 + 4 > b.len() {
                        None
                    } else {
                        parse_from(b, p1 + 4, acc)
                    }
                } else {
                    None
                }
            },
        }
    }
}

/// The record that the bytes stand for, if they are well formed.
pub open spec fn decoding(b: Seq<u8>) -> Option<RecordView> {
    parse_from(b, 0, blank())
}

/// Reads the varint at `pos` from at most `limit` bytes. There is none where
/// the bytes end too early, the varint is longer, or its value needs more than
/// 64 bits.
pub fn varint_at(b: &[u8], pos: usize, limit: usize) -> (r: Option<(u64, usize)>)
    ensures
        match read_varint(b@, pos as int, limit as nat) {
            Some((n, next)) => if n <= u64::MAX {
                r == Some((n as u64, next as usize)) && pos < next <= b@.len()
            } else {
                r is None
            },
            None => r is None,
        },
    decreases limit,
{
    if limit == 0 || pos >= b.len() {
        return None;
    }
    let byte = b[pos];
    if byte < 128 {
        Some((byte as u64, pos + 1))
    } else {
        match varint_at(b, pos + 1, limit - 1) {
            None => None,
            Some((high, next)) => {
                if high > 0x01ff_ffff_ffff_ffff {
                    None
                } else {
                    Some(((byte - 128) as u64 + 128 * high, next))
                }
            },
        }
    }
}

/// Reads a record from its bytes, if they are well formed.
pub fn decode(b: &[u8]) -> (r: Option<Record>)
    ensures
        match r {
            Some(rec) => decoding(b@) == Some(rec@),
            None => decoding(b@) is None,
        },
{
    let mut acc = Record {
        key: Vec::new(),
        value: Vec::new(),
        left: Vec::new(),
        right: Vec::new(),
        height: 0,
        rank: 0,
    };
    let mut pos: usize = 0;
    assert(acc@ == blank());
    while pos < b.len()
        invariant
            pos <= b.len(),
            parse_from(b@, pos as int, acc@) == decoding(b@),
        decreases b.len() - pos,
    {
        let (tag, p1) = match varint_at(b, pos, 10) {
            None => {
                return None;
            },
            Some(x) => x,
        };
        let field: u64 = tag / 8;
        let wire: u64 = tag % 8;
        if field == 0 {
            return None;
        }
        if wire == 0 {
            let (n, p2) = match varint_at(b, p1, 10) {
                None => {
                    return None;
                },
                Some(x) => x,
            };
            if field == 5 {
                if n > 0xffff_ffff {
                    return None;
                }
                acc.height = n as u32;
            } else if field == 6 {
                acc.rank = n;
            } else if field <= 4 {
                return None;
            }
            pos = p2;
        } else if wire == 2 {
            let (n, p2) = match varint_at(b, p1, 10) {
                None => {
                    return None;
                },
                Some(x) => x,
            };
            if n > (b.len() - p2) as u64 {
                return None;
            }
            let end: usize = p2 + n as usize;
            if field >= 5 && field <= 6 {
                return None;
            }
            if field <= 4 {
                let data = slice_to_vec(slice_subrange(b, p2, end));
                if field == 1 {
                    acc.key = data;
                } else if field == 2 {
                    acc.value = data;
                } else if field == 3 {
                    acc.left = data;
                } else {
                    acc.right = data;
                }
            }
            pos = end;
        } else if wire == 1 {
            if field <= 6 || b.len() - p1 < 8 {
                return None;
            }
            pos = p1 + 8;
        } else if wire == 5 {
            if field <= 6 || b.len() - p1 < 4 {
                return None;
            }
            pos = p1 + 4;
        } else {
            return None;
        }
    }
    Some(acc)
}

/// Appends the varint of `n`.
pub fn put_varint(out: &mut Vec<u8>, n: u64)
    ensures
        final(out)@ == old(out)@ + varint(n as nat),
    decreases n,
{
    if n < 128 {
        out.push(n as u8);
        assert(final(out)@ =~= old(out)@ + varint(n as nat));
    } else {
        out.push((n % 128 + 128) as u8);
        put_varint(out, n / 128);
        assert(final(out)@ =~= old(out)@ + varint(n as nat));
    }
}

/// Appends a length-delimited field, or nothing when `data` is empty.
fn put_bytes_field(out: &mut Vec<u8>, tag: u8, data: &Vec<u8>)
    ensures
        final(out)@ == old(out)@ + bytes_field(tag, data@),
{
    if data.len() > 0 {
        out.push(tag);
        put_varint(out, data.len() as u64);
        out.extend_from_slice(data.as_slice());
        assert(final(out)@ =~= old(out)@ + bytes_field(tag, data@));
    } else {
        assert(final(out)@ =~= old(out)@ + bytes_field(tag, data@));
    }
}

/// Appends a varint field, or nothing when `n` is zero.
fn put_number_field(out: &mut Vec<u8>, tag: u8, n: u64)
    ensures
        final(out)@ == old(out)@ + number_field(tag, n as nat),
{
    if n > 0 {
        out.push(tag);
        put_varint(out, n);
        assert(final(out)@ =~= old(out)@ + number_field(tag, n as nat));
    } else {
        assert(final(out)@ =~= old(out)@ + number_field(tag, n as nat));
    }
}

/// The bytes of a record.
pub fn encode(r: &Record) -> (out: Vec<u8>)
    ensures
        out@ == encoding(r@),
{
    let mut out: Vec<u8> = Vec::new();
    put_bytes_field(&mut out, TAG_KEY, &r.key);
    put_bytes_field(&mut out, TAG_VALUE, &r.value);
    put_bytes_field(&mut out, TAG_LEFT, &r.left);
    put_bytes_field(&mut out, TAG_RIGHT, &r.right);
    put_number_field(&mut out, TAG_HEIGHT, r.height as u64);
    put_number_field(&mut out, TAG_RANK, r.rank);
    assert(out@ =~= encoding(r@));
    out
}

/// 128 to the power of `k`.
pub open spec fn pow128(k: nat) -> nat
    decreases k,
{
    if k == 0 {
        1
    } else {
        128 * pow128((k - 1) as nat)
    }
}

/// A number below 128 to the power of `k` has a varint of at most `k` bytes.
pub proof fn lemma_varint_len(n: nat, k: nat)
    requires
        k >= 1,
        n < pow128(k),
    ensures
        1 <= varint(n).len() <= k,
    decreases k,
{
    reveal_with_fuel(pow128, 2);
    if n >= 128 {
        assert(k >= 2);
        assert(n / 128 < pow128((k - 1) as nat));
        lemma_varint_len(n / 128, (k - 1) as nat);
    }
}

/// The varint of a 64-bit number has at most ten bytes.
pub proof fn lemma_varint_fits(n: u64)
    ensures
        1 <= varint(n as nat).len() <= 10,
{
    reveal_with_fuel(pow128, 11);
    assert(pow128(10) == 1180591620717411303424);
    lemma_varint_len(n as nat, 10);
}

/// Reading where a varint was written gives the number back and ends behind
/// the varint.
pub proof fn lemma_read_varint(pre: Seq<u8>, n: nat, post: Seq<u8>, limit: nat)
    requires
        limit >= varint(n).len(),
    ensures
        read_varint(pre + varint(n) + post, pre.len() as int, limit) == Some(
            (n, (pre.len() + varint(n).len()) as int),
        ),
    decreases n,
{
    let b = pre + varint(n) + post;
    let pos = pre.len() as int;
    assert(b[pos] == varint(n)[0]);
    if n >= 128 {
        let first = seq![(n % 128 + 128) as u8];
        let pre2 = pre + first;
        assert(b =~= pre2 + varint(n / 128) + post);
        lemma_read_varint(pre2, n / 128, post, (limit - 1) as nat);
    }
}

/// Reading where the varint of a 64-bit number was written gives it back.
pub proof fn lemma_read_u64(pre: Seq<u8>, n: u64, post: Seq<u8>)
    ensures
        read_u64(pre + varint(n as nat) + post, pre.len() as int) == Some(
            (n, (pre.len() + varint(n as nat).len()) as int),
        ),
        1 <= varint(n as nat).len() <= 10,
{
    lemma_varint_fits(n);
    lemma_read_varint(pre, n as nat, post, 10);
}

/// Parsing over a length-delimited field of one of the numbers 1 to 4 sets
/// that field and goes on behind it.
pub proof fn lemma_parse_bytes_field(
    pre: Seq<u8>,
    tag: u8,
    data: Seq<u8>,
    post: Seq<u8>,
    acc: RecordView,
)
    requires
        tag == TAG_KEY || tag == TAG_VALUE || tag == TAG_LEFT || tag == TAG_RIGHT,
        data.len() <= u64::MAX,
    ensures
        parse_from(pre + bytes_field(tag, data) + post, pre.len() as int, acc) == if data.len()
            == 0 {
            parse_from(pre + post, pre.len() as int, acc)
        } else {
            parse_from(
                pre + bytes_field(tag, data) + post,
                (pre.len() + bytes_field(tag, data).len()) as int,
                with_bytes(acc, (tag / 8) as nat, data)->0,
            )
        },
{
    let b = pre + bytes_field(tag, data) + post;
    let pos = pre.len() as int;
    if data.len() == 0 {
        assert(b =~= pre + post);
    } else {
        let n = data.len() as u64;
        assert(b[pos] == tag);
        assert(read_u64(b, pos) == Some((tag as u64, pos + 1))) by {
            reveal_with_fuel(read_varint, 2);
        }
        let pre2 = pre + seq![tag];
        assert(b =~= pre2 + varint(n as nat) + (data + post));
        lemma_read_u64(pre2, n, data + post);
        let p2 = pos + 1 + varint(n as nat).len();
        assert(b.subrange(p2, p2 + n) =~= data);
    }
}

/// Parsing over a varint field of the number 5 or 6 sets that field and goes
/// on behind it.
pub proof fn lemma_parse_number_field(
    pre: Seq<u8>,
    tag: u8,
    n: u64,
    post: Seq<u8>,
    acc: RecordView,
)
    requires
        (tag == TAG_HEIGHT && n <= u32::MAX) || tag == TAG_RANK,
    ensures
        parse_from(pre + number_field(tag, n as nat) + post, pre.len() as int, acc) == if n == 0 {
            parse_from(pre + post, pre.len() as int, acc)
        } else {
            parse_from(
                pre + number_field(tag, n as nat) + post,
                (pre.len() + number_field(tag, n as nat).len()) as int,
                with_number(acc, (tag / 8) as nat, n)->0,
            )
        },
{
    let b = pre + number_field(tag, n as nat) + post;
    let pos = pre.len() as int;
    if n == 0 {
        assert(b =~= pre + post);
    } else {
        assert(b[pos] == tag);
        assert(read_u64(b, pos) == Some((tag as u64, pos + 1))) by {
            reveal_with_fuel(read_varint, 2);
        }
        let pre2 = pre + seq![tag];
        assert(b =~= pre2 + varint(n as nat) + post);
        lemma_read_u64(pre2, n, post);
    }
}

/// Parsing over a length-delimited field that stands at `pos`.
pub proof fn lemma_step_bytes(b: Seq<u8>, pos: int, tag: u8, data: Seq<u8>, acc: RecordView)
    requires
        tag == TAG_KEY || tag == TAG_VALUE || tag == TAG_LEFT || tag == TAG_RIGHT,
        data.len() <= u64::MAX,
        0 <= pos,
        pos + bytes_field(tag, data).len() <= b.len(),
        b.subrange(pos, pos + bytes_field(tag, data).len()) == bytes_field(tag, data),
    ensures
        parse_from(b, pos, acc) == parse_from(
            b,
            pos + bytes_field(tag, data).len(),
            if data.len() == 0 {
                acc
            } else {
                with_bytes(acc, (tag / 8) as nat, data)->0
            },
        ),
{
    let field = bytes_field(tag, data);
    let pre = b.subrange(0, pos);
    let post = b.subrange(pos + field.len(), b.len() as int);
    assert(b =~= pre + field + post);
    lemma_parse_bytes_field(pre, tag, data, post, acc);
    if data.len() == 0 {
        assert(pre + post =~= b);
    }
}

/// Parsing over a varint field that stands at `pos`.
pub proof fn lemma_step_number(b: Seq<u8>, pos: int, tag: u8, n: u64, acc: RecordView)
    requires
        (tag == TAG_HEIGHT && n <= u32::MAX) || tag == TAG_RANK,
        0 <= pos,
        pos + number_field(tag, n as nat).len() <= b.len(),
        b.subrange(pos, pos + number_field(tag, n as nat).len()) == number_field(tag, n as nat),
    ensures
        parse_from(b, pos, acc) == parse_from(
            b,
            pos + number_field(tag, n as nat).len(),
            if n == 0 {
                acc
            } else {
                with_number(acc, (tag / 8) as nat, n)->0
            },
        ),
{
    let field = number_field(tag, n as nat);
    let pre = b.subrange(0, pos);
    let post = b.subrange(pos + field.len(), b.len() as int);
    assert(b =~= pre + field + post);
    lemma_parse_number_field(pre, tag, n, post, acc);
    if n == 0 {
        assert(pre + post =~= b);
    }
}

/// Reading what was written gives the record back: decoding undoes encoding.
pub proof fn lemma_round_trip(r: RecordView)
    requires
        r.key.len() <= u64::MAX,
        r.value.len() <= u64::MAX,
        r.left.len() <= u64::MAX,
        r.right.len() <= u64::MAX,
    ensures
        decoding(encoding(r)) == Some(r),
{
    let f1 = bytes_field(TAG_KEY, r.key);
    let f2 = bytes_field(TAG_VALUE, r.value);
    let f3 = bytes_field(TAG_LEFT, r.left);
    let f4 = bytes_field(TAG_RIGHT, r.right);
    let f5 = number_field(TAG_HEIGHT, r.height as nat);
    let f6 = number_field(TAG_RANK, r.rank as nat);
    let b = encoding(r);
    let q1 = f1.len() as int;
    let q2 = q1 + f2.len();
    let q3 = q2 + f3.len();
    let q4 = q3 + f4.len();
    let q5 = q4 + f5.len();
    let q6 = q5 + f6.len();
    let a0 = blank();
    let a1 = RecordView { key: r.key, ..a0 };
    let a2 = RecordView { value: r.value, ..a1 };
    let a3 = RecordView { left: r.left, ..a2 };
    let a4 = RecordView { right: r.right, ..a3 };
    let a5 = RecordView { height: r.height, ..a4 };
    assert(b.len() == q6);
    assert(parse_from(b, 0, a0) == parse_from(b, q1, a1)) by {
        assert(b.subrange(0, q1) =~= f1);
        lemma_step_bytes(b, 0, TAG_KEY, r.key, a0);
        if r.key.len() == 0 {
            assert(r.key =~= a0.key);
        }
    }
    assert(parse_from(b, q1, a1) == parse_from(b, q2, a2)) by {
        assert(b.subrange(q1, q2) =~= f2);
        lemma_step_bytes(b, q1, TAG_VALUE, r.value, a1);
        if r.value.len() == 0 {
            assert(r.value =~= a1.value);
        }
    }
    assert(parse_from(b, q2, a2) == parse_from(b, q3, a3)) by {
        assert(b.subrange(q2, q3) =~= f3);
        lemma_step_bytes(b, q2, TAG_LEFT, r.left, a2);
        if r.left.len() == 0 {
            assert(r.left =~= a2.left);
        }
    }
    assert(parse_from(b, q3, a3) == parse_from(b, q4, a4)) by {
        assert(b.subrange(q3, q4) =~= f4);
        lemma_step_bytes(b, q3, TAG_RIGHT, r.right, a3);
        if r.right.len() == 0 {
            assert(r.right =~= a3.right);
        }
    }
    assert(parse_from(b, q4, a4) == parse_from(b, q5, a5)) by {
        assert(b.subrange(q4, q5) =~= f5);
        lemma_step_number(b, q4, TAG_HEIGHT, r.height as u64, a4);
    }
    assert(parse_from(b, q5, a5) == parse_from(b, q6, r)) by {
        assert(b.subrange(q5, q6) =~= f6);
        lemma_step_number(b, q5, TAG_RANK, r.rank, a5);
    }
}

} // verus!
