//! Three-way comparison results and the orders on names and numbers that
//! the entry sorting is built from.

use vstd::prelude::*;

verus! {

/// The result of comparing two values.
#[derive(Clone, Copy, PartialEq, Eq, Debug, Structural)]
pub enum Order {
    Less,
    Equal,
    Greater,
}

impl Order {
    /// The same comparison seen from the other side.
    pub open spec fn flip(self) -> Order {
        match self {
            Order::Less => Order::Greater,
            Order::Equal => Order::Equal,
            Order::Greater => Order::Less,
        }
    }

    /// Reverses the comparison.
    pub fn reverse(self) -> (r: Order)
        ensures r == self.flip(),
    {
        match self {
            Order::Less => Order::Greater,
            Order::Equal => Order::Equal,
            Order::Greater => Order::Less,
        }
    }
}

/// Three-way comparison of two integers.
pub open spec fn int_order(a: int, b: int) -> Order {
    if a < b { Order::Less } else if a == b { Order::Equal } else { Order::Greater }
}

/// Sort priority of a character: ASCII digits (0), ASCII uppercase (1),
/// ASCII lowercase (2), everything else (3).
pub open spec fn char_priority(c: char) -> u8 {
    if '0' <= c <= '9' { 0 } else if 'A' <= c <= 'Z' { 1 } else if 'a' <= c <= 'z' { 2 } else { 3 }
}

/// The rank of a character in a name comparison: by code point, or, when
/// `by_priority` is set, by priority class first and code point second.
pub open spec fn char_rank(c: char, by_priority: bool) -> int {
    if by_priority {
        char_priority(c) as int * 0x20_0000 + c as int
    } else {
        c as int
    }
}

/// Lexicographic comparison of two names by character rank; a proper
/// prefix sorts first.
pub open spec fn name_order(a: Seq<char>, b: Seq<char>, by_priority: bool) -> Order
    decreases a.len(),
{
    if a.len() == 0 && b.len() == 0 {
        Order::Equal
    } else if a.len() == 0 {
        Order::Less
    } else if b.len() == 0 {
        Order::Greater
    } else if char_rank(a[0], by_priority) != char_rank(b[0], by_priority) {
        int_order(char_rank(a[0], by_priority), char_rank(b[0], by_priority))
    } else {
        name_order(a.drop_first(), b.drop_first(), by_priority)
    }
}

/// Comparing two names agrees with comparing them the other way round.
pub proof fn lemma_name_order_flip(a: Seq<char>, b: Seq<char>, p: bool)
    ensures name_order(a, b, p) == name_order(b, a, p).flip(),
    decreases a.len(),
{
    if a.len() > 0 && b.len() > 0 && char_rank(a[0], p) == char_rank(b[0], p) {
        lemma_name_order_flip(a.drop_first(), b.drop_first(), p);
    }
}

/// Names compare equal exactly when they are the same.
pub proof fn lemma_name_order_equal(a: Seq<char>, b: Seq<char>, p: bool)
    ensures (name_order(a, b, p) == Order::Equal) == (a == b),
    decreases a.len(),
{
    if a.len() > 0 && b.len() > 0 {
        if char_rank(a[0], p) == char_rank(b[0], p) {
            lemma_char_rank_injective(a[0], b[0], p);
            lemma_name_order_equal(a.drop_first(), b.drop_first(), p);
            if a.drop_first() == b.drop_first() {
                assert(a =~= seq![a[0]] + a.drop_first());
                assert(b =~= seq![b[0]] + b.drop_first());
            }
        } else {
            assert(a[0] != b[0]);
        }
    } else if a.len() > 0 || b.len() > 0 {
        assert(a.len() != b.len());
    } else {
        assert(a =~= b);
    }
}

proof fn lemma_char_rank_injective(c: char, d: char, p: bool)
    requires char_rank(c, p) == char_rank(d, p),
    ensures c == d,
{
    assert((c as int) < 0x20_0000 && (d as int) < 0x20_0000);
    if p {
        if char_priority(c) != char_priority(d) {
            assert(false) by (nonlinear_arith)
                requires
                    char_priority(c) as int * 0x20_0000 + c as int == char_priority(d) as int * 0x20_0000 + d as int,
                    char_priority(c) != char_priority(d),
                    0 <= (c as int) < 0x20_0000,
                    0 <= (d as int) < 0x20_0000;
        }
    }
}

/// Name comparison is transitive.
pub proof fn lemma_name_order_trans(a: Seq<char>, b: Seq<char>, c: Seq<char>, p: bool)
    requires
        name_order(a, b, p) != Order::Greater,
        name_order(b, c, p) != Order::Greater,
    ensures
        name_order(a, c, p) != Order::Greater,
    decreases a.len(),
{
    if a.len() > 0 && b.len() > 0 && c.len() > 0 {
        let (ra, rb, rc) = (char_rank(a[0], p), char_rank(b[0], p), char_rank(c[0], p));
        if ra == rb && rb == rc {
            lemma_name_order_trans(a.drop_first(), b.drop_first(), c.drop_first(), p);
        }
    }
}

/// A comparison on which two values that compare equal are the same is
/// reflexive.
pub proof fn lemma_name_order_refl(a: Seq<char>, p: bool)
    ensures name_order(a, a, p) == Order::Equal,
{
    lemma_name_order_equal(a, a, p);
}


/// Returns the sort priority of a character: ASCII digits (0), ASCII
/// uppercase letters (1), ASCII lowercase letters (2), anything else (3).
pub fn char_sort_priority(c: char) -> (p: u8)
    ensures
        p == char_priority(c),
{
    if '0' <= c && c <= '9' {
        0
    } else if 'A' <= c && c <= 'Z' {
        1
    } else if 'a' <= c && c <= 'z' {
        2
    } else {
        3
    }
}

fn rank(c: char, by_priority: bool) -> (r: u64)
    ensures r == char_rank(c, by_priority),
{
    let code = c as u32 as u64;
    if by_priority {
        let p = char_sort_priority(c) as u64;
        p * 0x20_0000 + code
    } else {
        code
    }
}

/// Compares two names character by character (see `name_order`).
pub fn compare_names(a: &Vec<char>, b: &Vec<char>, by_priority: bool) -> (r: Order)
    ensures
        r == name_order(a@, b@, by_priority),
{
    let mut i: usize = 0;
    proof {
        assert(a@.skip(0) =~= a@);
        assert(b@.skip(0) =~= b@);
    }
    while i < a.len() && i < b.len()
        invariant
            0 <= i <= a.len(),
            i <= b.len(),
            name_order(a@, b@, by_priority) == name_order(a@.skip(i as int), b@.skip(i as int), by_priority),
        decreases a.len() - i,
    {
        let ra = rank(a[i], by_priority);
        let rb = rank(b[i], by_priority);
        proof {
            assert(a@.skip(i as int)[0] == a@[i as int]);
            assert(b@.skip(i as int)[0] == b@[i as int]);
            assert(a@.skip(i as int).drop_first() =~= a@.skip(i + 1));
            assert(b@.skip(i as int).drop_first() =~= b@.skip(i + 1));
        }
        if ra < rb {
            return Order::Less;
        } else if ra > rb {
            return Order::Greater;
        }
        i = i + 1;
    }
    if i < b.len() {
        Order::Less
    } else if i < a.len() {
        Order::Greater
    } else {
        Order::Equal
    }
}

/// Three-way comparison of two unsigned integers.
pub fn compare_u64(a: u64, b: u64) -> (r: Order)
    ensures r == int_order(a as int, b as int),
{
    if a < b { Order::Less } else if a == b { Order::Equal } else { Order::Greater }
}

/// Three-way comparison of two signed integers.
pub fn compare_i128(a: i128, b: i128) -> (r: Order)
    ensures r == int_order(a as int, b as int),
{
    if a < b { Order::Less } else if a == b { Order::Equal } else { Order::Greater }
}

} // verus!
