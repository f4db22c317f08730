use vstd::prelude::*;

verus! {

/// `128` raised to the `n`-th power.
pub open spec fn pow128(n: nat) -> nat
    decreases n,
{
    if n == 0 {
        1
    } else {
        128 * pow128((n - 1) as nat)
    }
}

/// Value of the `n` base-128 digits of `b` that start at `pos`, least significant first.
pub open spec fn varint_value(b: Seq<u8>, pos: int, n: nat) -> nat
    decreases n,
{
    if n == 0 {
        0
    } else {
        varint_value(b, pos, (n - 1) as nat) + (b[pos + n - 1] % 128) as nat * pow128(
            (n - 1) as nat,
        )
    }
}

/// The `n` bytes of `b` at `pos` form one protobuf varint that fits in 64 bits.
pub open spec fn is_varint(b: Seq<u8>, pos: int, n: nat) -> bool {
    &&& 1 <= n <= 10
    &&& 0 <= pos
    &&& pos + n <= b.len()
    &&& forall|i: int| pos <= i < pos + n - 1 ==> #[trigger] b[i] >= 128
    &&& b[pos + n - 1] < 128
    &&& varint_value(b, pos, n) <= u64::MAX
}

/// The varint at `pos` and the position just past it.
pub open spec fn parse_varint(b: Seq<u8>, pos: int) -> Option<(u64, int)> {
    if exists|n: nat| is_varint(b, pos, n) {
        let n = choose|n: nat| is_varint(b, pos, n);
        Some((varint_value(b, pos, n) as u64, pos + n))
    } else {
        None
    }
}

/// One field of a protobuf message as it lies on the wire.
#[derive(Clone, Copy, Debug, PartialEq, Eq)]
pub struct Field {
    /// Field number.
    pub tag: u32,
    /// Wire type: 0 varint, 1 fixed 64-bit, 2 length-delimited, 5 fixed 32-bit.
    pub wire_type: u8,
    /// The value of a varint field, the length of a length-delimited one, else 0.
    pub value: u64,
    /// Where the field's payload starts.
    pub start: usize,
    /// Where the next field starts.
    pub next: usize,
}

/// How deep groups may nest inside one field, counting the field itself.
pub const RECURSION_LIMIT: u32 = 100;

/// The field key at `pos`: field number, wire type, and where the key ends.
/// Keys beyond 32 bits, field number 0 and wire types 6 and 7 are refused.
pub open spec fn key_end_at(b: Seq<u8>, pos: int) -> Option<(u32, u8, int)> {
    match parse_varint(b, pos) {
        None => None,
        Some((key, end)) => if key > u32::MAX || key / 8 == 0 || key % 8 > 5 {
            None
        } else {
            Some(((key / 8) as u32, (key % 8) as u8, end))
        },
    }
}

/// End of the payload, starting at `pos`, of a field with wire type `wt` and
/// number `tag`, skipped with `depth` levels of nesting left. A group's
/// payload runs to the end-group key of the same number, nested fields included.
pub open spec fn skip_body(b: Seq<u8>, pos: int, wt: u8, tag: u32, depth: nat) -> Option<int>
    decreases depth, 0int, 0int,
{
    if depth == 0 || pos < 0 || pos > b.len() {
        None
    } else if wt == 0 {
        match parse_varint(b, pos) {
            None => None,
            Some((_, end)) => Some(end),
        }
    } else if wt == 1 {
        if pos + 8 <= b.len() {
            Some(pos + 8)
        } else {
            None
        }
    } else if wt == 2 {
        match parse_varint(b, pos) {
            None => None,
            Some((len, end)) => if end + len <= b.len() {
                Some(end + len)
            } else {
                None
            },
        }
    } else if wt == 5 {
        if pos + 4 <= b.len() {
            Some(pos + 4)
        } else {
            None
        }
    } else if wt == 3 {
        skip_group(b, pos, tag, (depth - 1) as nat)
    } else {
        None
    }
}

/// End of the rest of a group numbered `tag` whose next inner field starts at
/// `pos`: just past the first end-group key at this level, which must carry `tag`.
pub open spec fn skip_group(b: Seq<u8>, pos: int, tag: u32, depth: nat) -> Option<int>
    decreases depth, 1int, b.len() - pos,
{
    if pos < 0 || pos >= b.len() {
        None
    } else {
        match key_end_at(b, pos) {
            None => None,
            Some((t, w, end)) => if !(pos < end && end <= b.len()) {
                None
            } else if w == 4 {
                if t == tag {
                    Some(end)
                } else {
                    None
                }
            } else {
                match skip_body(b, end, w, t, depth) {
                    None => None,
                    Some(after) => if pos < after && after <= b.len() {
                        skip_group(b, after, tag, depth)
                    } else {
                        None
                    },
                }
            },
        }
    }
}

/// The field that starts at `pos` in `b`, if it is well formed and complete.
/// A group (wire type 3) runs to its matching end-group key; a lone end-group
/// key (wire type 4) is refused.
pub open spec fn field_at(b: Seq<u8>, pos: int) -> Option<Field> {
    match parse_varint(b, pos) {
        None => None,
        Some((key, key_end)) => {
            let tag = key / 8;
            let wt = key % 8;
            if key > u32::MAX || tag == 0 {
                None
            } else if wt == 0 {
                match parse_varint(b, key_end) {
                    None => None,
                    Some((v, value_end)) => Some(
                        Field { tag: tag as u32, wire_type: 0, value: v, start: key_end as usize, next: value_end as usize },
                    ),
                }
            } else if wt == 1 {
                if key_end + 8 <= b.len() {
                    Some(Field { tag: tag as u32, wire_type: 1, value: 0, start: key_end as usize, next: (key_end + 8) as usize })
                } else {
                    None
                }
            } else if wt == 2 {
                match parse_varint(b, key_end) {
                    None => None,
                    Some((len, value_end)) => if value_end + len <= b.len() {
                        Some(
                            Field { tag: tag as u32, wire_type: 2, value: len, start: value_end as usize, next: (value_end + len) as usize },
                        )
                    } else {
                        None
                    },
                }
            } else if wt == 5 {
                if key_end + 4 <= b.len() {
                    Some(Field { tag: tag as u32, wire_type: 5, value: 0, start: key_end as usize, next: (key_end + 4) as usize })
                } else {
                    None
                }
            } else if wt == 3 {
                match skip_group(b, key_end, tag as u32, (RECURSION_LIMIT - 1) as nat) {
                    None => None,
                    Some(end) => Some(
                        Field { tag: tag as u32, wire_type: 3, value: 0, start: key_end as usize, next: end as usize },
                    ),
                }
            } else {
                None
            }
        },
    }
}

/// A varint that is read lies within the bytes, past its start.
pub proof fn lemma_varint_bounds(b: Seq<u8>, pos: int)
    ensures
        parse_varint(b, pos) matches Some((_, end)) ==> pos < end <= b.len(),
{
    if parse_varint(b, pos) is Some {
        let n = choose|n: nat| is_varint(b, pos, n);
        assert(is_varint(b, pos, n));
    }
}

proof fn lemma_skip_group_bounds(b: Seq<u8>, pos: int, tag: u32, depth: nat)
    requires
        skip_group(b, pos, tag, depth) is Some,
    ensures
        pos < skip_group(b, pos, tag, depth)->0 <= b.len(),
    decreases b.len() - pos,
{
    let (t, w, end) = key_end_at(b, pos)->0;
    if w != 4 {
        let after = skip_body(b, end, w, t, depth)->0;
        lemma_skip_group_bounds(b, after, tag, depth);
    }
}

/// Reads the field key at `pos`.
pub fn read_key_end(b: &[u8], pos: usize) -> (r: Option<(u32, u8, usize)>)
    ensures
        match r {
            Some((t, w, e)) => key_end_at(b@, pos as int) == Some((t, w, e as int)),
            None => key_end_at(b@, pos as int) is None,
        },
{
    match read_varint(b, pos) {
        None => None,
        Some((key, end)) => if key > 0xffff_ffffu64 || key / 8 == 0 || key % 8 > 5 {
            None
        } else {
            Some(((key / 8) as u32, (key % 8) as u8, end))
        },
    }
}

/// Skips the payload at `pos` of a field with wire type `wt` and number `tag`.
fn read_skip_body(b: &[u8], pos: usize, wt: u8, tag: u32, depth: u32) -> (r: Option<usize>)
    ensures
        match r {
            Some(e) => skip_body(b@, pos as int, wt, tag, depth as nat) == Some(e as int),
            None => skip_body(b@, pos as int, wt, tag, depth as nat) is None,
        },
    decreases depth, 0int,
{
    let len = b.len();
    if depth == 0 || pos > len {
        return None;
    }
    if wt == 0 {
        match read_varint(b, pos) {
            None => None,
            Some((_, end)) => Some(end),
        }
    } else if wt == 1 {
        if len - pos >= 8 {
            Some(pos + 8)
        } else {
            None
        }
    } else if wt == 2 {
        match read_varint(b, pos) {
            None => None,
            Some((l, end)) => {
                proof {
                    lemma_varint_bounds(b@, pos as int);
                }
                if l as u128 <= (len - end) as u128 {
                    Some(end + l as usize)
                } else {
                    None
                }
            },
        }
    } else if wt == 5 {
        if len - pos >= 4 {
            Some(pos + 4)
        } else {
            None
        }
    } else if wt == 3 {
        read_skip_group(b, pos, tag, depth - 1)
    } else {
        None
    }
}

/// Skips the rest of a group numbered `tag` from its inner field at `pos`.
fn read_skip_group(b: &[u8], start: usize, tag: u32, depth: u32) -> (r: Option<usize>)
    ensures
        match r {
            Some(e) => skip_group(b@, start as int, tag, depth as nat) == Some(e as int),
            None => skip_group(b@, start as int, tag, depth as nat) is None,
        },
    decreases depth, 1int,
{
    let len = b.len();
    let mut pos = start;
    while pos < len
        invariant
            len == b@.len(),
            start <= pos,
            skip_group(b@, pos as int, tag, depth as nat) == skip_group(b@, start as int, tag, depth as nat),
        decreases len - pos,
    {
        let (t, w, end) = match read_key_end(b, pos) {
            Some(x) => x,
            None => return None,
        };
        if !(pos < end && end <= len) {
            return None;
        }
        if w == 4 {
            return if t == tag {
                Some(end)
            } else {
                None
            };
        }
        let after = match read_skip_body(b, end, w, t, depth) {
            Some(a) => a,
            None => return None,
        };
        if !(pos < after && after <= len) {
            return None;
        }
        pos = after;
    }
    None
}

proof fn lemma_varint_unique(b: Seq<u8>, pos: int, n1: nat, n2: nat)
    requires
        is_varint(b, pos, n1),
        is_varint(b, pos, n2),
    ensures
        n1 == n2,
{
    if n1 < n2 {
        assert(b[pos + n1 - 1] >= 128);
    } else if n2 < n1 {
        assert(b[pos + n2 - 1] >= 128);
    }
}

proof fn lemma_pow128_small(n: nat)
    requires
        n <= 9,
    ensures
        pow128(n) <= 0x8000_0000_0000_0000,
    decreases 9 - n,
{
    reveal_with_fuel(pow128, 10);
    if n < 9 {
        lemma_pow128_small((n + 1) as nat);
        assert(pow128((n + 1) as nat) == 128 * pow128(n));
    }
}

/// Reads the varint that starts at `pos`.
pub fn read_varint(b: &[u8], pos: usize) -> (r: Option<(u64, usize)>)
    ensures
        match r {
            Some((v, next)) => parse_varint(b@, pos as int) == Some((v, next as int)),
            None => parse_varint(b@, pos as int) is None,
        },
{
    let len = b.len();
    if pos >= len {
        proof {
            assert forall|n: nat| !is_varint(b@, pos as int, n) by {}
        }
        return None;
    }
    let mut i: usize = 0;
    let mut acc: u128 = 0;
    let mut mult: u128 = 1;
    while i < 10
        invariant
            len == b@.len(),
            pos < len,
            0 <= i <= 10,
            acc == varint_value(b@, pos as int, i as nat),
            mult == pow128(i as nat),
            acc < mult,
            forall|j: int| pos <= j < pos + i ==> #[trigger] b@[j] >= 128,
        decreases 10 - i,
    {
        if i >= len - pos {
            proof {
                assert forall|n: nat| !is_varint(b@, pos as int, n) by {
                    if is_varint(b@, pos as int, n) && n <= i {
                        assert(b@[pos + n - 1] >= 128);
                    }
                }
            }
            return None;
        }
        let byte = b[pos + i];
        proof {
            lemma_pow128_small(i as nat);
            assert((byte % 128) as u128 * mult <= 127 * mult) by (nonlinear_arith)
                requires
                    byte % 128 <= 127,
            ;
            assert(pow128((i + 1) as nat) == 128 * pow128(i as nat));
        }
        let digit: u128 = (byte % 128) as u128;
        acc = acc + digit * mult;
        if byte < 128 {
            proof {
                let n = (i + 1) as nat;
                assert(varint_value(b@, pos as int, n) == varint_value(b@, pos as int, i as nat) + (
                b@[pos + i] % 128) as nat * pow128(i as nat));
                if acc <= u64::MAX {
                    assert(is_varint(b@, pos as int, n));
                    assert forall|m: nat| is_varint(b@, pos as int, m) implies m == n by {
                        lemma_varint_unique(b@, pos as int, m, n);
                    }
                } else {
                    assert forall|m: nat| !is_varint(b@, pos as int, m) by {
                        if is_varint(b@, pos as int, m) {
                            lemma_varint_unique(b@, pos as int, m, n);
                        }
                    }
                }
            }
            if acc > 0xffff_ffff_ffff_ffffu128 {
                return None;
            }
            return Some((acc as u64, pos + i + 1));
        }
        mult = mult * 128;
        i = i + 1;
    }
    proof {
        assert forall|n: nat| !is_varint(b@, pos as int, n) by {
            if is_varint(b@, pos as int, n) {
                assert(b@[pos + n - 1] >= 128);
            }
        }
    }
    None
}

/// Reads the field that starts at `pos`: its key, then its payload's extent.
pub fn read_field(b: &[u8], pos: usize) -> (r: Option<Field>)
    ensures
        r == field_at(b@, pos as int),
{
    let (key, key_end) = match read_varint(b, pos) {
        Some(x) => x,
        None => return None,
    };
    proof {
        let n = choose|n: nat| is_varint(b@, pos as int, n);
        assert(is_varint(b@, pos as int, n));
    }
    let tag = key / 8;
    let wt = key % 8;
    if key > 0xffff_ffffu64 || tag == 0 {
        return None;
    }
    let len = b.len();
    if wt == 0 {
        match read_varint(b, key_end) {
            None => None,
            Some((v, value_end)) => Some(Field { tag: tag as u32, wire_type: 0, value: v, start: key_end, next: value_end }),
        }
    } else if wt == 1 {
        if key_end <= len && len - key_end >= 8 {
            Some(Field { tag: tag as u32, wire_type: 1, value: 0, start: key_end, next: key_end + 8 })
        } else {
            None
        }
    } else if wt == 2 {
        match read_varint(b, key_end) {
            None => None,
            Some((l, value_end)) => {
                proof {
                    let n = choose|n: nat| is_varint(b@, key_end as int, n);
                    assert(is_varint(b@, key_end as int, n));
                }
                if l as u128 <= (len - value_end) as u128 {
                    Some(Field { tag: tag as u32, wire_type: 2, value: l, start: value_end, next: value_end + l as usize })
                } else {
                    None
                }
            },
        }
    } else if wt == 5 {
        if key_end <= len && len - key_end >= 4 {
            Some(Field { tag: tag as u32, wire_type: 5, value: 0, start: key_end, next: key_end + 4 })
        } else {
            None
        }
    } else if wt == 3 {
        match read_skip_group(b, key_end, tag as u32, RECURSION_LIMIT - 1) {
            None => None,
            Some(end) => Some(Field { tag: tag as u32, wire_type: 3, value: 0, start: key_end, next: end }),
        }
    } else {
        None
    }
}

/// A field that is read always lies within the message and moves forward.
pub proof fn field_advances(b: Seq<u8>, pos: int)
    requires
        field_at(b, pos) is Some,
        b.len() <= usize::MAX,
    ensures
        pos < field_at(b, pos)->0.start <= field_at(b, pos)->0.next <= b.len(),
{
    let n = choose|n: nat| is_varint(b, pos, n);
    assert(is_varint(b, pos, n));
    let (key, key_end) = parse_varint(b, pos)->0;
    assert(key_end == pos + n);
    if key % 8 == 0 || key % 8 == 2 {
        let m = choose|m: nat| is_varint(b, key_end, m);
        assert(is_varint(b, key_end, m));
        let (_, value_end) = parse_varint(b, key_end)->0;
        assert(value_end == key_end + m);
    }
    if key % 8 == 3 {
        lemma_skip_group_bounds(b, key_end, (key / 8) as u32, (RECURSION_LIMIT - 1) as nat);
    }
}


/// `b1` and `b2` hold the same bytes before position `n`, and both reach it.
pub open spec fn agree_before(b1: Seq<u8>, b2: Seq<u8>, n: int) -> bool {
    &&& 0 <= n <= b1.len()
    &&& n <= b2.len()
    &&& forall|i: int| 0 <= i < n ==> #[trigger] b1[i] == b2[i]
}

proof fn lemma_value_agree(b1: Seq<u8>, b2: Seq<u8>, n: int, pos: int, m: nat)
    requires
        agree_before(b1, b2, n),
        0 <= pos,
        pos + m <= n,
    ensures
        varint_value(b1, pos, m) == varint_value(b2, pos, m),
    decreases m,
{
    if m > 0 {
        lemma_value_agree(b1, b2, n, pos, (m - 1) as nat);
        assert(b1[pos + m - 1] == b2[pos + m - 1]);
    }
}

proof fn lemma_skip_body_bounds(b: Seq<u8>, pos: int, wt: u8, tag: u32, depth: nat)
    ensures
        skip_body(b, pos, wt, tag, depth) matches Some(end) ==> pos <= end <= b.len(),
{
    lemma_varint_bounds(b, pos);
    if depth > 0 && wt == 3 && skip_body(b, pos, wt, tag, depth) is Some {
        lemma_skip_group_bounds(b, pos, tag, (depth - 1) as nat);
    }
}

/// A varint that ends before `n` reads the same in two byte strings that
/// agree before `n`.
pub proof fn varint_agree(b1: Seq<u8>, b2: Seq<u8>, n: int, pos: int)
    requires
        agree_before(b1, b2, n),
        parse_varint(b1, pos) matches Some((_, end)) && end <= n,
    ensures
        parse_varint(b2, pos) == parse_varint(b1, pos),
{
    let m = choose|m: nat| is_varint(b1, pos, m);
    assert(is_varint(b1, pos, m));
    lemma_value_agree(b1, b2, n, pos, m);
    assert forall|i: int| pos <= i < pos + m - 1 implies #[trigger] b2[i] >= 128 by {
        assert(b1[i] >= 128);
    }
    assert(b1[pos + m - 1] == b2[pos + m - 1]);
    assert(is_varint(b2, pos, m));
    let m2 = choose|k: nat| is_varint(b2, pos, k);
    lemma_varint_unique(b2, pos, m, m2);
}

/// A key that ends before `n` reads the same in two byte strings that agree
/// before `n`.
pub proof fn lemma_key_agree(b1: Seq<u8>, b2: Seq<u8>, n: int, pos: int)
    requires
        agree_before(b1, b2, n),
        key_end_at(b1, pos) matches Some((_, _, end)) && end <= n,
    ensures
        key_end_at(b2, pos) == key_end_at(b1, pos),
{
    varint_agree(b1, b2, n, pos);
}

/// Skipping a payload that ends before `n` gives the same end in two byte
/// strings that agree before `n`.
pub proof fn skip_body_agree(b1: Seq<u8>, b2: Seq<u8>, n: int, pos: int, wt: u8, tag: u32, depth: nat)
    requires
        agree_before(b1, b2, n),
        skip_body(b1, pos, wt, tag, depth) matches Some(end) && end <= n,
    ensures
        skip_body(b2, pos, wt, tag, depth) == skip_body(b1, pos, wt, tag, depth),
    decreases depth, 0int, 0int,
{
    if wt == 0 || wt == 2 {
        varint_agree(b1, b2, n, pos);
    } else if wt == 3 {
        skip_group_agree(b1, b2, n, pos, tag, (depth - 1) as nat);
    }
}

/// Skipping the rest of a group that ends before `n` gives the same end in two
/// byte strings that agree before `n`.
pub proof fn skip_group_agree(b1: Seq<u8>, b2: Seq<u8>, n: int, pos: int, tag: u32, depth: nat)
    requires
        agree_before(b1, b2, n),
        skip_group(b1, pos, tag, depth) matches Some(end) && end <= n,
    ensures
        skip_group(b2, pos, tag, depth) == skip_group(b1, pos, tag, depth),
    decreases depth, 1int, b1.len() - pos,
{
    let (t, w, end) = key_end_at(b1, pos)->0;
    lemma_skip_group_bounds(b1, pos, tag, depth);
    if w != 4 {
        let after = skip_body(b1, end, w, t, depth)->0;
        lemma_skip_body_bounds(b1, end, w, t, depth);
        lemma_skip_group_bounds(b1, after, tag, depth);
        lemma_key_agree(b1, b2, n, pos);
        skip_body_agree(b1, b2, n, end, w, t, depth);
        skip_group_agree(b1, b2, n, after, tag, depth);
    } else {
        assert(skip_group(b1, pos, tag, depth) == Some(end));
        lemma_key_agree(b1, b2, n, pos);
    }
}

/// A field that ends before `n` reads the same in two byte strings that agree
/// before `n`.
pub proof fn field_agree(b1: Seq<u8>, b2: Seq<u8>, n: int, pos: int)
    requires
        agree_before(b1, b2, n),
        b1.len() <= usize::MAX,
        field_at(b1, pos) matches Some(f) && f.next <= n,
    ensures
        field_at(b2, pos) == field_at(b1, pos),
{
    field_advances(b1, pos);
    let (key, key_end) = parse_varint(b1, pos)->0;
    lemma_varint_bounds(b1, pos);
    varint_agree(b1, b2, n, pos);
    if key % 8 == 0 || key % 8 == 2 {
        lemma_varint_bounds(b1, key_end);
        varint_agree(b1, b2, n, key_end);
    } else if key % 8 == 3 {
        lemma_skip_group_bounds(b1, key_end, (key / 8) as u32, (RECURSION_LIMIT - 1) as nat);
        skip_group_agree(b1, b2, n, key_end, (key / 8) as u32, (RECURSION_LIMIT - 1) as nat);
    }
}

} // verus!
