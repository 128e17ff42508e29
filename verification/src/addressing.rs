//! Content addressing.
//!
//! Every entry's identity is derived deterministically from its canonical
//! content: identical content always yields the identical address, and
//! distinct content yields distinct addresses. An address is therefore
//! modeled as the canonical content itself, which is exactly the guarantee
//! a content hash provides to the rest of the engine.
//!
//! Addresses carry a total order (variant rank first, then the fields, with
//! character sequences compared lexicographically). The order backs the
//! deterministic-pick rule: when a `(base, tag)` pair carries several
//! targets, every reader resolves to the smallest target address, so all
//! readers that observe the same edge set agree.

use vstd::prelude::*;
use vstd::pervasive::unreached;

verus! {

/// Spec-level form of an address: the canonical content an address is
/// derived from, with strings abstracted to character sequences.
pub ghost enum AddrV {
    /// Root of one named vocabulary.
    Root { name: Seq<char>, bucketing: bool },
    /// A character node. Identity is the symbol alone: character nodes for
    /// the same symbol are one global entry wherever they occur; only edges
    /// encode position.
    Node { symbol: char },
    /// The bare terminator: a single reserved sentinel value.
    Term,
    /// A bucketed terminator, identified by its opaque payload.
    Bucket { data: Seq<char> },
    /// A category anchor qualified by the word itself.
    Anchor { category: Seq<char>, word: Seq<char> },
    /// A category anchor qualified by an explicit id.
    IdAnchor { category: Seq<char>, id: int },
}

/// An address in the store: the deterministic content identity of an entry
/// or anchor.
#[derive(Debug, PartialEq, Eq)]
pub enum Address {
    Root { name: String, bucketing: bool },
    Node { symbol: char },
    Term,
    Bucket { data: String },
    Anchor { category: String, word: String },
    IdAnchor { category: String, id: i32 },
}

impl View for Address {
    type V = AddrV;

    open spec fn view(&self) -> AddrV {
        match self {
            Address::Root { name, bucketing } => AddrV::Root { name: name@, bucketing: *bucketing },
            Address::Node { symbol } => AddrV::Node { symbol: *symbol },
            Address::Term => AddrV::Term,
            Address::Bucket { data } => AddrV::Bucket { data: data@ },
            Address::Anchor { category, word } => AddrV::Anchor { category: category@, word: word@ },
            Address::IdAnchor { category, id } => AddrV::IdAnchor { category: category@, id: *id as int },
        }
    }
}

impl Address {
    /// An exact copy; addresses are immutable values.
    pub fn duplicate(&self) -> (r: Address)
        ensures
            r@ == self@,
    {
        match self {
            Address::Root { name, bucketing } => Address::Root { name: name.clone(), bucketing: *bucketing },
            Address::Node { symbol } => Address::Node { symbol: *symbol },
            Address::Term => Address::Term,
            Address::Bucket { data } => Address::Bucket { data: data.clone() },
            Address::Anchor { category, word } => Address::Anchor { category: category.clone(), word: word.clone() },
            Address::IdAnchor { category, id } => Address::IdAnchor { category: category.clone(), id: *id },
        }
    }

    /// Content equality, which is address equality.
    pub fn same(&self, other: &Address) -> (r: bool)
        ensures
            r == (self@ == other@),
    {
        match (self, other) {
            (Address::Root { name: n1, bucketing: b1 }, Address::Root { name: n2, bucketing: b2 }) => {
                *n1 == *n2 && b1 == b2
            },
            (Address::Node { symbol: c1 }, Address::Node { symbol: c2 }) => c1 == c2,
            (Address::Term, Address::Term) => true,
            (Address::Bucket { data: d1 }, Address::Bucket { data: d2 }) => *d1 == *d2,
            (Address::Anchor { category: c1, word: w1 }, Address::Anchor { category: c2, word: w2 }) => {
                *c1 == *c2 && *w1 == *w2
            },
            (Address::IdAnchor { category: c1, id: i1 }, Address::IdAnchor { category: c2, id: i2 }) => {
                *c1 == *c2 && i1 == i2
            },
            _ => false,
        }
    }
}

/// Lexicographic order on character sequences, by scalar value.
pub open spec fn lex_lt(a: Seq<char>, b: Seq<char>) -> bool
    decreases a.len(),
{
    if b.len() == 0 {
        false
    } else if a.len() == 0 {
        true
    } else if a[0] != b[0] {
        a[0] < b[0]
    } else {
        lex_lt(a.drop_first(), b.drop_first())
    }
}

/// `lex_lt` is connected: sequences that compare strictly neither way are equal.
pub proof fn lemma_lex_lt_connected(a: Seq<char>, b: Seq<char>)
    requires
        !lex_lt(a, b),
        !lex_lt(b, a),
    ensures
        a == b,
    decreases a.len(),
{
    if b.len() == 0 {
        assert(a.len() == 0);
        assert(a =~= b);
    } else if a.len() == 0 {
        assert(lex_lt(a, b));
    } else if a[0] != b[0] {
        assert(lex_lt(a, b) || lex_lt(b, a));
    } else {
        lemma_lex_lt_connected(a.drop_first(), b.drop_first());
        assert(a =~= seq![a[0]] + a.drop_first());
        assert(b =~= seq![b[0]] + b.drop_first());
    }
}

/// `lex_lt` is transitive.
pub proof fn lemma_lex_lt_trans(a: Seq<char>, b: Seq<char>, c: Seq<char>)
    requires
        lex_lt(a, b),
        lex_lt(b, c),
    ensures
        lex_lt(a, c),
    decreases a.len(),
{
    if a.len() == 0 {
        assert(c.len() > 0);
    } else {
        assert(b.len() > 0 && c.len() > 0);
        if a[0] == b[0] {
            if b[0] == c[0] {
                lemma_lex_lt_trans(a.drop_first(), b.drop_first(), c.drop_first());
            }
        } else {
            if b[0] == c[0] {
            } else {
                if a[0] == c[0] {
                    assert(a[0] < b[0] && b[0] < c[0]);
                }
            }
        }
    }
}

/// Rank of an address variant; the leading key of the total order.
pub open spec fn addr_rank(a: AddrV) -> int {
    match a {
        AddrV::Root { .. } => 0,
        AddrV::Node { .. } => 1,
        AddrV::Term => 2,
        AddrV::Bucket { .. } => 3,
        AddrV::Anchor { .. } => 4,
        AddrV::IdAnchor { .. } => 5,
    }
}

/// Total order on addresses: variant rank, then fields.
pub open spec fn addr_lt(a: AddrV, b: AddrV) -> bool {
    if addr_rank(a) != addr_rank(b) {
        addr_rank(a) < addr_rank(b)
    } else {
        match (a, b) {
            (AddrV::Root { name: n1, bucketing: b1 }, AddrV::Root { name: n2, bucketing: b2 }) => {
                if n1 != n2 {
                    lex_lt(n1, n2)
                } else {
                    !b1 && b2
                }
            },
            (AddrV::Node { symbol: c1 }, AddrV::Node { symbol: c2 }) => c1 < c2,
            (AddrV::Term, AddrV::Term) => false,
            (AddrV::Bucket { data: d1 }, AddrV::Bucket { data: d2 }) => lex_lt(d1, d2),
            (AddrV::Anchor { category: c1, word: w1 }, AddrV::Anchor { category: c2, word: w2 }) => {
                if c1 != c2 {
                    lex_lt(c1, c2)
                } else {
                    lex_lt(w1, w2)
                }
            },
            (AddrV::IdAnchor { category: c1, id: i1 }, AddrV::IdAnchor { category: c2, id: i2 }) => {
                if c1 != c2 {
                    lex_lt(c1, c2)
                } else {
                    i1 < i2
                }
            },
            _ => false,
        }
    }
}

/// The address order is connected: two addresses that compare strictly
/// neither way are the same address.
pub proof fn lemma_addr_lt_connected(a: AddrV, b: AddrV)
    requires
        !addr_lt(a, b),
        !addr_lt(b, a),
    ensures
        a == b,
{
    assert(addr_rank(a) == addr_rank(b));
    match (a, b) {
        (AddrV::Root { name: n1, bucketing: b1 }, AddrV::Root { name: n2, bucketing: b2 }) => {
            if n1 != n2 {
                lemma_lex_lt_connected(n1, n2);
            }
        },
        (AddrV::Node { symbol: c1 }, AddrV::Node { symbol: c2 }) => {
            assert(c1 == c2);
        },
        (AddrV::Bucket { data: d1 }, AddrV::Bucket { data: d2 }) => {
            lemma_lex_lt_connected(d1, d2);
        },
        (AddrV::Anchor { category: c1, word: w1 }, AddrV::Anchor { category: c2, word: w2 }) => {
            if c1 != c2 {
                lemma_lex_lt_connected(c1, c2);
            } else {
                lemma_lex_lt_connected(w1, w2);
            }
        },
        (AddrV::IdAnchor { category: c1, id: i1 }, AddrV::IdAnchor { category: c2, id: i2 }) => {
            if c1 != c2 {
                lemma_lex_lt_connected(c1, c2);
            }
        },
        _ => {},
    }
}

/// The address order is transitive.
pub proof fn lemma_addr_lt_trans(a: AddrV, b: AddrV, c: AddrV)
    requires
        addr_lt(a, b),
        addr_lt(b, c),
    ensures
        addr_lt(a, c),
{
    if addr_rank(a) == addr_rank(b) && addr_rank(b) == addr_rank(c) {
        match (a, b, c) {
            (
                AddrV::Root { name: n1, bucketing: b1 },
                AddrV::Root { name: n2, bucketing: b2 },
                AddrV::Root { name: n3, bucketing: b3 },
            ) => {
                lemma_lex_key_trans(n1, n2, n3);
            },
            (AddrV::Anchor { category: c1, word: w1 }, AddrV::Anchor { category: c2, word: w2 }, AddrV::Anchor { category: c3, word: w3 }) => {
                lemma_lex_key_trans(c1, c2, c3);
                if c1 == c2 && c2 == c3 {
                    lemma_lex_lt_trans(w1, w2, w3);
                }
            },
            (AddrV::IdAnchor { category: c1, id: i1 }, AddrV::IdAnchor { category: c2, id: i2 }, AddrV::IdAnchor { category: c3, id: i3 }) => {
                lemma_lex_key_trans(c1, c2, c3);
            },
            (AddrV::Bucket { data: d1 }, AddrV::Bucket { data: d2 }, AddrV::Bucket { data: d3 }) => {
                lemma_lex_lt_trans(d1, d2, d3);
            },
            _ => {},
        }
    }
}

/// Helper for the composite cases of `lemma_addr_lt_trans`: on the leading
/// sequence key, "equal or lexicographically below" composes transitively.
proof fn lemma_lex_key_trans(n1: Seq<char>, n2: Seq<char>, n3: Seq<char>)
    ensures
        (n1 != n2 && lex_lt(n1, n2)) && (n2 != n3 && lex_lt(n2, n3)) ==> (n1 != n3 && lex_lt(n1, n3)),
{
    if n1 != n2 && lex_lt(n1, n2) && n2 != n3 && lex_lt(n2, n3) {
        lemma_lex_lt_trans(n1, n2, n3);
        if n1 == n3 {
            lemma_lex_lt_trans(n1, n2, n1);
            lemma_lex_lt_asym_helper(n1);
        }
    }
}

/// No sequence is lexicographically below itself.
proof fn lemma_lex_lt_asym_helper(a: Seq<char>)
    ensures
        !lex_lt(a, a),
    decreases a.len(),
{
    if a.len() > 0 {
        lemma_lex_lt_asym_helper(a.drop_first());
    }
}

/// No address is below itself.
pub proof fn lemma_addr_lt_irrefl(a: AddrV)
    ensures
        !addr_lt(a, a),
{
    match a {
        AddrV::Bucket { data } => lemma_lex_lt_asym_helper(data),
        AddrV::Anchor { category, word } => lemma_lex_lt_asym_helper(word),
        _ => {},
    }
}

/// Equal prefixes do not decide the lexicographic order: it is settled by
/// the remainders.
proof fn lemma_lex_skip(a: Seq<char>, b: Seq<char>, i: int)
    requires
        0 <= i <= a.len(),
        i <= b.len(),
        forall|j: int| 0 <= j < i ==> a[j] == b[j],
    ensures
        lex_lt(a, b) == lex_lt(a.skip(i), b.skip(i)),
    decreases i,
{
    if i == 0 {
        assert(a.skip(0) =~= a);
        assert(b.skip(0) =~= b);
    } else {
        assert(a.len() > 0 && b.len() > 0);
        assert(a[0] == b[0]);
        assert forall|j: int| 0 <= j < i - 1 implies a.drop_first()[j] == b.drop_first()[j] by {
            assert(a.drop_first()[j] == a[j + 1]);
            assert(b.drop_first()[j] == b[j + 1]);
        }
        lemma_lex_skip(a.drop_first(), b.drop_first(), i - 1);
        assert(a.drop_first().skip(i - 1) =~= a.skip(i));
        assert(b.drop_first().skip(i - 1) =~= b.skip(i));
    }
}

/// Lexicographic comparison of two strings, by character scalar value.
pub fn str_less(a: &String, b: &String) -> (r: bool)
    ensures
        r == lex_lt(a@, b@),
{
    let la = a.as_str().unicode_len();
    let lb = b.as_str().unicode_len();
    let mut i: usize = 0;
    while i < la && i < lb
        invariant
            la == a@.len(),
            lb == b@.len(),
            i <= la,
            i <= lb,
            forall|j: int| 0 <= j < i ==> a@[j] == b@[j],
        decreases la - i,
    {
        let ca = a.as_str().get_char(i);
        let cb = b.as_str().get_char(i);
        if ca != cb {
            proof {
                lemma_lex_skip(a@, b@, i as int);
                assert(a@.skip(i as int).len() > 0);
                assert(b@.skip(i as int).len() > 0);
                assert(a@.skip(i as int)[0] == a@[i as int]);
                assert(b@.skip(i as int)[0] == b@[i as int]);
            }
            return ca < cb;
        }
        i += 1;
    }
    proof {
        lemma_lex_skip(a@, b@, i as int);
        if i == la {
            assert(a@.skip(i as int).len() == 0);
        }
        if i == lb {
            assert(b@.skip(i as int).len() == 0);
        }
    }
    la < lb
}

/// The rank of an address's variant.
fn rank_of(a: &Address) -> (r: u8)
    ensures
        r as int == addr_rank(a@),
{
    match a {
        Address::Root { .. } => 0,
        Address::Node { .. } => 1,
        Address::Term => 2,
        Address::Bucket { .. } => 3,
        Address::Anchor { .. } => 4,
        Address::IdAnchor { .. } => 5,
    }
}

/// Strict comparison in the total address order: the executable side of
/// the deterministic-pick rule.
pub fn addr_less(x: &Address, y: &Address) -> (r: bool)
    ensures
        r == addr_lt(x@, y@),
{
    let rx = rank_of(x);
    let ry = rank_of(y);
    if rx != ry {
        return rx < ry;
    }
    match (x, y) {
        (Address::Root { name: n1, bucketing: b1 }, Address::Root { name: n2, bucketing: b2 }) => {
            if !(*n1 == *n2) {
                str_less(n1, n2)
            } else {
                !*b1 && *b2
            }
        },
        (Address::Node { symbol: c1 }, Address::Node { symbol: c2 }) => *c1 < *c2,
        (Address::Term, Address::Term) => false,
        (Address::Bucket { data: d1 }, Address::Bucket { data: d2 }) => str_less(d1, d2),
        (Address::Anchor { category: c1, word: w1 }, Address::Anchor { category: c2, word: w2 }) => {
            if !(*c1 == *c2) {
                str_less(c1, c2)
            } else {
                str_less(w1, w2)
            }
        },
        (
            Address::IdAnchor { category: c1, id: i1 },
            Address::IdAnchor { category: c2, id: i2 },
        ) => {
            if !(*c1 == *c2) {
                str_less(c1, c2)
            } else {
                *i1 < *i2
            }
        },
        _ => unreached(),
    }
}

} // verus!
