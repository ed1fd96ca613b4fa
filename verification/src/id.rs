//! The identifier value: 12 bytes packing a timestamp, a machine identifier,
//! a process identifier and a counter, totally ordered by their big-endian
//! numeric value (equivalently, byte-wise lexicographic order).
use vstd::prelude::*;

verus! {

use core::cmp::Ordering;
use crate::radix::{
    seq_num, digits_ok, lex_lt, lemma_seq_num_bound, lemma_seq_num_split, lemma_seq_num_order,
    lemma_seq_num_push,
};
use vstd::arithmetic::power::{
    pow, lemma_pow1, lemma_pow_adds, lemma_pow_increases,
};
use vstd::arithmetic::div_mod::{
    lemma_fundamental_div_mod, lemma_div_denominator, lemma_mod_bound, lemma_multiply_divide_lt,
    lemma_div_pos_is_pos,
};
use vstd::arithmetic::mul::lemma_mul_inequality;

/// The bytes of an identifier as mathematical integers.
pub open spec fn byte_ints(s: Seq<u8>) -> Seq<int> {
    s.map_values(|b: u8| b as int)
}

/// The value of the 12 bytes read as one big-endian number.
pub open spec fn id_num(s: Seq<u8>) -> int {
    seq_num(256, byte_ints(s))
}

/// Seconds since the Unix epoch, from bytes 0..4 (big-endian).
pub open spec fn time_of(s: Seq<u8>) -> int {
    ((s[0] as int) * 0x100_0000) + ((s[1] as int) * 0x1_0000) + ((s[2] as int) * 0x100) + (
    s[3] as int)
}

/// The three machine-identifier bytes, 4..7.
pub open spec fn machine_of(s: Seq<u8>) -> Seq<u8> {
    s.subrange(4, 7)
}

/// The machine-identifier bytes read as one big-endian number.
pub open spec fn machine_num(s: Seq<u8>) -> int {
    ((s[4] as int) * 0x1_0000) + ((s[5] as int) * 0x100) + (s[6] as int)
}

/// The process identifier, from bytes 7..9 (big-endian).
pub open spec fn pid_of(s: Seq<u8>) -> int {
    ((s[7] as int) * 0x100) + (s[8] as int)
}

/// The counter, from bytes 9..12 (big-endian).
pub open spec fn counter_of(s: Seq<u8>) -> int {
    ((s[9] as int) * 0x1_0000) + ((s[10] as int) * 0x100) + (s[11] as int)
}

/// The 12-byte layout built from its four fields.
pub open spec fn pack(t: u32, m: Seq<u8>, p: u16, c: u32) -> Seq<u8>
    recommends
        m.len() == 3,
        c < 0x100_0000,
{
    seq![
        ((t as int) / 0x100_0000) as u8,
        (((t as int) / 0x1_0000) % 0x100) as u8,
        (((t as int) / 0x100) % 0x100) as u8,
        ((t as int) % 0x100) as u8,
        m[0],
        m[1],
        m[2],
        ((p as int) / 0x100) as u8,
        ((p as int) % 0x100) as u8,
        ((c as int) / 0x1_0000) as u8,
        (((c as int) / 0x100) % 0x100) as u8,
        ((c as int) % 0x100) as u8,
    ]
}

/// A globally unique, time-sortable identifier: exactly 12 bytes.
#[derive(Clone, Copy, Debug, Eq, Ord)]
pub struct ID {
    pub(crate) val: [u8; 12],
}

impl View for ID {
    type V = Seq<u8>;

    closed spec fn view(&self) -> Seq<u8> {
        self.val@
    }
}

/// An identifier always views as exactly 12 bytes.
pub broadcast proof fn lemma_id_len(id: ID)
    ensures
        (#[trigger] id@).len() == 12,
{
}

/// Base-256 digit recomposition for two digits: `x == (x/256)*256 + x%256`.
proof fn lemma_split2(x: int)
    requires
        0 <= x < 0x1_0000,
    ensures
        x == (x / 0x100) * 0x100 + x % 0x100,
        0 <= x / 0x100 < 0x100,
        0 <= x % 0x100 < 0x100,
{
    lemma_fundamental_div_mod(x, 0x100);
    lemma_multiply_divide_lt(x, 0x100, 0x100);
    lemma_div_pos_is_pos(x, 0x100);
    lemma_mod_bound(x, 0x100);
}

/// Base-256 digit recomposition for three digits.
proof fn lemma_split3(x: int)
    requires
        0 <= x < 0x100_0000,
    ensures
        x == (x / 0x1_0000) * 0x1_0000 + ((x / 0x100) % 0x100) * 0x100 + x % 0x100,
        0 <= x / 0x1_0000 < 0x100,
        0 <= (x / 0x100) % 0x100 < 0x100,
        0 <= x % 0x100 < 0x100,
{
    lemma_fundamental_div_mod(x, 0x100);
    lemma_mod_bound(x, 0x100);
    lemma_div_pos_is_pos(x, 0x100);
    lemma_multiply_divide_lt(x, 0x100, 0x1_0000);
    lemma_split2(x / 0x100);
    lemma_div_denominator(x, 0x100, 0x100);
    assert((x / 0x100) / 0x100 == x / 0x1_0000);
}

/// Base-256 digit recomposition for four digits.
proof fn lemma_split4(x: int)
    requires
        0 <= x < 0x1_0000_0000,
    ensures
        x == (x / 0x100_0000) * 0x100_0000 + ((x / 0x1_0000) % 0x100) * 0x1_0000 + ((x / 0x100)
            % 0x100) * 0x100 + x % 0x100,
        0 <= x / 0x100_0000 < 0x100,
        0 <= (x / 0x1_0000) % 0x100 < 0x100,
        0 <= (x / 0x100) % 0x100 < 0x100,
        0 <= x % 0x100 < 0x100,
{
    lemma_fundamental_div_mod(x, 0x100);
    lemma_mod_bound(x, 0x100);
    lemma_div_pos_is_pos(x, 0x100);
    lemma_multiply_divide_lt(x, 0x100, 0x100_0000);
    lemma_split3(x / 0x100);
    lemma_div_denominator(x, 0x100, 0x100);
    lemma_div_denominator(x, 0x100, 0x1_0000);
    assert((x / 0x100) / 0x100 == x / 0x1_0000);
    assert((x / 0x100) / 0x1_0000 == x / 0x100_0000);
}

/// The fields of `pack` read back exactly.
pub proof fn lemma_pack_fields(t: u32, m: Seq<u8>, p: u16, c: u32)
    requires
        m.len() == 3,
        c < 0x100_0000,
    ensures
        pack(t, m, p, c).len() == 12,
        time_of(pack(t, m, p, c)) == t as int,
        machine_of(pack(t, m, p, c)) =~= m,
        pid_of(pack(t, m, p, c)) == p as int,
        counter_of(pack(t, m, p, c)) == c as int,
{
    lemma_split4(t as int);
    lemma_split2(p as int);
    lemma_split3(c as int);
}

/// Helper: closed forms of `seq_num` on sequences of up to four digits.
proof fn lemma_seq_num_small(base: int, s: Seq<int>)
    requires
        1 <= s.len() <= 4,
    ensures
        s.len() == 1 ==> seq_num(base, s) == s[0],
        s.len() == 2 ==> seq_num(base, s) == s[0] * base + s[1],
        s.len() == 3 ==> seq_num(base, s) == (s[0] * base + s[1]) * base + s[2],
        s.len() == 4 ==> seq_num(base, s) == ((s[0] * base + s[1]) * base + s[2]) * base + s[3],
    decreases s.len(),
{
    if s.len() == 1 {
        assert(s.drop_last() =~= Seq::<int>::empty());
        assert(seq_num(base, s.drop_last()) == 0);
    } else {
        lemma_seq_num_small(base, s.drop_last());
    }
}

/// The numeric value of an identifier decomposes into its fields: ordering by
/// value is ordering by timestamp, then machine id, then pid, then counter.
pub proof fn lemma_id_num_fields(s: Seq<u8>)
    requires
        s.len() == 12,
    ensures
        id_num(s) == ((time_of(s) * 0x100_0000 + machine_num(s)) * 0x1_0000 + pid_of(s))
            * 0x100_0000 + counter_of(s),
{
    let bs = byte_ints(s);
    let a = bs.subrange(0, 4);
    let b = bs.subrange(4, 7);
    let c = bs.subrange(7, 9);
    let d = bs.subrange(9, 12);
    assert(bs =~= (a + b + c) + d);
    assert(a + b + c =~= (a + b) + c);
    lemma_seq_num_split(256, a + b + c, d);
    lemma_seq_num_split(256, a + b, c);
    lemma_seq_num_split(256, a, b);
    crate::radix::lemma_pow_vals();
    lemma_seq_num_small(256, a);
    lemma_seq_num_small(256, b);
    lemma_seq_num_small(256, c);
    lemma_seq_num_small(256, d);
    assert(seq_num(256, a) == time_of(s));
    assert(seq_num(256, b) == machine_num(s));
    assert(seq_num(256, c) == pid_of(s));
    assert(seq_num(256, d) == counter_of(s));
}

/// The bytes of an identifier are digits of base 256.
pub proof fn lemma_byte_ints_ok(s: Seq<u8>)
    ensures
        digits_ok(byte_ints(s), 256),
        byte_ints(s).len() == s.len(),
{
    assert forall|i: int| 0 <= i < byte_ints(s).len() implies 0 <= #[trigger] byte_ints(s)[i]
        < 256 by {
        assert(byte_ints(s)[i] == s[i] as int);
    }
}

/// Identifiers order by their numeric value exactly as their bytes order
/// lexicographically.
pub proof fn lemma_id_order_is_lex(a: Seq<u8>, b: Seq<u8>)
    requires
        a.len() == 12,
        b.len() == 12,
    ensures
        id_num(a) < id_num(b) <==> lex_lt(byte_ints(a), byte_ints(b)),
{
    lemma_byte_ints_ok(a);
    lemma_byte_ints_ok(b);
    lemma_seq_num_order(256, byte_ints(a), byte_ints(b));
}

/// Monotonicity: with equal machine id and pid, a later timestamp — or the
/// same timestamp and a larger counter — gives a strictly larger identifier,
/// both numerically and in byte-wise lexicographic order.
pub proof fn lemma_monotonic(a: Seq<u8>, b: Seq<u8>)
    requires
        a.len() == 12,
        b.len() == 12,
        machine_of(a) == machine_of(b),
        pid_of(a) == pid_of(b),
        time_of(a) <= time_of(b),
        time_of(a) == time_of(b) ==> counter_of(a) < counter_of(b),
    ensures
        id_num(a) < id_num(b),
        lex_lt(byte_ints(a), byte_ints(b)),
{
    lemma_id_num_fields(a);
    lemma_id_num_fields(b);
    assert(machine_num(a) == machine_num(b)) by {
        assert(machine_of(a)[0] == a[4] && machine_of(a)[1] == a[5] && machine_of(a)[2] == a[6]);
        assert(machine_of(b)[0] == b[4] && machine_of(b)[1] == b[5] && machine_of(b)[2] == b[6]);
    }
    assert(counter_of(a) < 0x100_0000 && counter_of(b) < 0x100_0000);
    assert(0 <= counter_of(a) && 0 <= counter_of(b));
    lemma_id_order_is_lex(a, b);
}

/// Distinct counter fields give distinct identifiers.
pub proof fn lemma_distinct_counter(a: Seq<u8>, b: Seq<u8>)
    requires
        counter_of(a) != counter_of(b),
    ensures
        a != b,
{
}

impl ID {
    /// Wrap 12 raw bytes as an identifier.
    pub(crate) fn from_val(val: [u8; 12]) -> (id: ID)
        ensures
            id@ == val@,
    {
        ID { val }
    }

    /// Build an identifier directly from its four fields.
    pub fn from_parts(t: u32, m: &[u8; 3], p: u16, c: u32) -> (id: ID)
        requires
            c < 0x100_0000,
        ensures
            id@ == pack(t, m@, p, c),
            time_of(id@) == t as int,
            machine_of(id@) == m@,
            pid_of(id@) == p as int,
            counter_of(id@) == c as int,
    {
        let val: [u8; 12] = [
            (t / 0x100_0000) as u8,
            ((t / 0x1_0000) % 0x100) as u8,
            ((t / 0x100) % 0x100) as u8,
            (t % 0x100) as u8,
            m[0],
            m[1],
            m[2],
            (p / 0x100) as u8,
            (p % 0x100) as u8,
            (c / 0x1_0000) as u8,
            ((c / 0x100) % 0x100) as u8,
            (c % 0x100) as u8,
        ];
        proof {
            assert(val@ =~= pack(t, m@, p, c));
            lemma_pack_fields(t, m@, p, c);
        }
        ID { val }
    }

    /// The three machine-identifier bytes.
    pub fn machine(&self) -> (m: [u8; 3])
        ensures
            m@ == machine_of(self@),
    {
        let m = [self.val[4], self.val[5], self.val[6]];
        proof {
            assert(m@ =~= machine_of(self@));
        }
        m
    }

    /// The process identifier stored in the value.
    pub fn pid(&self) -> (p: u16)
        ensures
            p as int == pid_of(self@),
    {
        (self.val[7] as u16) * 0x100 + (self.val[8] as u16)
    }

    /// The timestamp stored in the value: seconds since the Unix epoch.
    pub fn time(&self) -> (t: u32)
        ensures
            t as int == time_of(self@),
    {
        (self.val[0] as u32) * 0x100_0000 + (self.val[1] as u32) * 0x1_0000 + (self.val[2] as u32)
            * 0x100 + (self.val[3] as u32)
    }

    /// The counter stored in the value.
    pub fn counter(&self) -> (c: u32)
        ensures
            c as int == counter_of(self@),
            c < 0x100_0000,
    {
        (self.val[9] as u32) * 0x1_0000 + (self.val[10] as u32) * 0x100 + (self.val[11] as u32)
    }

    /// The numeric value of the identifier, as a 96-bit number in a `u128`.
    pub(crate) fn to_num(&self) -> (n: u128)
        ensures
            n as int == id_num(self@),
    {
        let mut n: u128 = 0;
        let mut i: usize = 0;
        proof {
            vstd::arithmetic::power::lemma_pow0(256);
            assert(byte_ints(self@.take(0)) =~= Seq::<int>::empty());
        }
        while i < 12
            invariant
                i <= 12,
                n as int == seq_num(256, byte_ints(self@.take(i as int))),
                (n as int) < pow(256, i as nat),
            decreases 12 - i,
        {
            proof {
                let prefix = byte_ints(self@.take(i as int));
                let next = byte_ints(self@.take(i as int + 1));
                assert(next =~= prefix.push(self.val@[i as int] as int));
                lemma_seq_num_push(256, prefix, self.val@[i as int] as int);
                lemma_pow1(256);
                lemma_pow_adds(256, i as nat, 1);
                lemma_pow_increases(256, (i + 1) as nat, 12);
                crate::radix::lemma_pow_vals();
                lemma_mul_inequality(n as int, pow(256, i as nat) - 1, 256);
                assert((n as int) * 256 <= (pow(256, i as nat) - 1) * 256);
                assert((pow(256, i as nat) - 1) * 256 == pow(256, i as nat) * 256 - 256)
                    by (nonlinear_arith);
            }
            n = n * 256 + (self.val[i] as u128);
            i = i + 1;
        }
        proof {
            assert(self@.take(12) =~= self@);
        }
        n
    }
}

impl PartialEq for ID {
    /// Two identifiers are equal exactly when their 12 bytes are equal.
    fn eq(&self, other: &ID) -> (r: bool) {
        let mut i: usize = 0;
        while i < 12
            invariant
                i <= 12,
                forall|k: int| 0 <= k < i ==> self.val@[k] == other.val@[k],
            decreases 12 - i,
        {
            if self.val[i] != other.val[i] {
                return false;
            }
            i = i + 1;
        }
        proof {
            assert(self@ =~= other@);
        }
        true
    }
}

impl vstd::std_specs::cmp::PartialEqSpecImpl for ID {
    open spec fn obeys_eq_spec() -> bool {
        true
    }

    open spec fn eq_spec(&self, other: &ID) -> bool {
        self@ == other@
    }
}

impl PartialOrd for ID {
    /// Identifiers are totally ordered by their big-endian numeric value,
    /// which equals byte-wise lexicographic order.
    fn partial_cmp(&self, other: &ID) -> (r: Option<Ordering>) {
        let a = self.to_num();
        let b = other.to_num();
        if a < b {
            Some(Ordering::Less)
        } else if a == b {
            Some(Ordering::Equal)
        } else {
            Some(Ordering::Greater)
        }
    }
}

impl vstd::std_specs::cmp::PartialOrdSpecImpl for ID {
    open spec fn obeys_partial_cmp_spec() -> bool {
        true
    }

    open spec fn partial_cmp_spec(&self, other: &ID) -> Option<Ordering> {
        if id_num(self@) < id_num(other@) {
            Some(Ordering::Less)
        } else if id_num(self@) == id_num(other@) {
            Some(Ordering::Equal)
        } else {
            Some(Ordering::Greater)
        }
    }
}

} // verus!
