//! The binary bundle format: a self-contained encoding of a unit's bundle,
//! written once per unit and decoded whenever another unit's analysis needs
//! it. Every value is carried in little-endian 64-bit words; sequences are
//! length-prefixed; enums carry a leading tag word. The decoder accepts
//! exactly the encodings this module produces, so decoding an encoded
//! bundle gives the original back.

use vstd::prelude::*;

use crate::body::{BasicBlock, CacheError, CachedBody, CachedBodyV, FlowistryFacts, Repr, ReprV,
    ScopeData, Statement};
use crate::bundle::{Bundle, BundleV};

verus! {

// ---------------------------------------------------------------------
// One 64-bit word, little endian.
// ---------------------------------------------------------------------

/// The eight little-endian bytes of one word.
pub open spec fn le_bytes(x: u64) -> Seq<u8> {
    seq![
        (x & 0xff) as u8,
        ((x >> 8) & 0xff) as u8,
        ((x >> 16) & 0xff) as u8,
        ((x >> 24) & 0xff) as u8,
        ((x >> 32) & 0xff) as u8,
        ((x >> 40) & 0xff) as u8,
        ((x >> 48) & 0xff) as u8,
        ((x >> 56) & 0xff) as u8,
    ]
}

/// The word eight little-endian bytes stand for.
pub open spec fn word_of(b: Seq<u8>) -> u64
    recommends
        b.len() == 8,
{
    (b[0] as u64) | ((b[1] as u64) << 8) | ((b[2] as u64) << 16) | ((b[3] as u64) << 24) | ((
    b[4] as u64) << 32) | ((b[5] as u64) << 40) | ((b[6] as u64) << 48) | ((b[7] as u64) << 56)
}

/// Splitting a word into its bytes and reassembling them gives it back.
pub proof fn lemma_word_of_le_bytes(x: u64)
    ensures
        word_of(le_bytes(x)) == x,
{
    assert(x & 0xff < 256 && (x >> 8) & 0xff < 256 && (x >> 16) & 0xff < 256 && (x >> 24) & 0xff
        < 256 && (x >> 32) & 0xff < 256 && (x >> 40) & 0xff < 256 && (x >> 48) & 0xff < 256 && (x
        >> 56) & 0xff < 256) by (bit_vector);
    assert((x & 0xff) | (((x >> 8) & 0xff) << 8) | (((x >> 16) & 0xff) << 16) | (((x >> 24) & 0xff)
        << 24) | (((x >> 32) & 0xff) << 32) | (((x >> 40) & 0xff) << 40) | (((x >> 48) & 0xff)
        << 48) | (((x >> 56) & 0xff) << 56) == x) by (bit_vector);
}

/// Reading one word at position `i`.
pub open spec fn spec_read_word(d: Seq<u8>, i: int) -> Option<(u64, int)> {
    if 0 <= i && i + 8 <= d.len() {
        Some((word_of(d.subrange(i, i + 8)), i + 8))
    } else {
        None
    }
}

/// A word embedded in a byte stream reads back as itself.
pub proof fn lemma_read_word(d: Seq<u8>, i: int, x: u64)
    requires
        0 <= i,
        i + 8 <= d.len(),
        d.subrange(i, i + 8) == le_bytes(x),
    ensures
        spec_read_word(d, i) == Some((x, i + 8)),
{
    lemma_word_of_le_bytes(x);
}

/// Reading one word that must fit a 32-bit value.
pub open spec fn spec_read_u32(d: Seq<u8>, i: int) -> Option<(u32, int)> {
    match spec_read_word(d, i) {
        None => None,
        Some((w, j)) => if w <= u32::MAX as u64 {
            Some((w as u32, j))
        } else {
            None
        },
    }
}

/// A 32-bit value embedded as a word reads back as itself.
pub proof fn lemma_read_u32(d: Seq<u8>, i: int, x: u32)
    requires
        0 <= i,
        i + 8 <= d.len(),
        d.subrange(i, i + 8) == le_bytes(x as u64),
    ensures
        spec_read_u32(d, i) == Some((x, i + 8)),
{
    lemma_read_word(d, i, x as u64);
}

/// A concatenation embedded at `i` splits into its two embedded parts.
pub proof fn lemma_subrange_split(d: Seq<u8>, i: int, a: Seq<u8>, b: Seq<u8>)
    requires
        0 <= i,
        i + a.len() + b.len() <= d.len(),
        d.subrange(i, i + a.len() + b.len()) == a + b,
    ensures
        d.subrange(i, i + a.len() as int) == a,
        d.subrange(i + a.len() as int, i + a.len() + b.len()) == b,
{
    assert(d.subrange(i, i + a.len() as int) =~= a) by {
        assert forall|m: int| 0 <= m < a.len() implies d[i + m] == a[m] by {
            assert(d.subrange(i, i + a.len() + b.len())[m] == d[i + m]);
            assert((a + b)[m] == a[m]);
        }
    }
    assert(d.subrange(i + a.len() as int, i + a.len() + b.len()) =~= b) by {
        assert forall|m: int| 0 <= m < b.len() implies d[i + a.len() + m] == b[m] by {
            assert(d.subrange(i, i + a.len() + b.len())[a.len() + m] == d[i + a.len() + m]);
            assert((a + b)[a.len() + m] == b[m]);
        }
    }
}

// ---------------------------------------------------------------------
// Length-prefixed sequences, generically.
// ---------------------------------------------------------------------

/// The concatenated encodings of a sequence's elements.
pub open spec fn enc_list<A>(s: Seq<A>, f: spec_fn(A) -> Seq<u8>) -> Seq<u8>
    decreases s.len(),
{
    if s.len() == 0 {
        Seq::empty()
    } else {
        enc_list(s.drop_last(), f) + f(s.last())
    }
}

/// A sequence: its length as one word, then its elements.
pub open spec fn enc_seq<A>(s: Seq<A>, f: spec_fn(A) -> Seq<u8>) -> Seq<u8> {
    le_bytes(s.len() as u64) + enc_list(s, f)
}

/// Appending one element to an encoded prefix.
pub proof fn lemma_enc_list_push<A>(s: Seq<A>, i: int, f: spec_fn(A) -> Seq<u8>)
    requires
        0 <= i < s.len(),
    ensures
        enc_list(s.take(i + 1), f) == enc_list(s.take(i), f) + f(s[i]),
{
    assert(s.take(i + 1).drop_last() =~= s.take(i));
    assert(s.take(i + 1).last() == s[i]);
}

/// The element encoding peels off the front as well.
pub proof fn lemma_enc_list_first<A>(s: Seq<A>, f: spec_fn(A) -> Seq<u8>)
    requires
        s.len() > 0,
    ensures
        enc_list(s, f) == f(s.first()) + enc_list(s.drop_first(), f),
    decreases s.len(),
{
    if s.len() == 1 {
        assert(enc_list(s.drop_last(), f) + f(s.last()) =~= f(s.first()) + enc_list(
            s.drop_first(),
            f,
        ));
    } else {
        let t = s.drop_last();
        lemma_enc_list_first(t, f);
        assert(t.first() == s.first());
        assert(t.drop_first() =~= s.drop_first().drop_last());
        assert(s.drop_first().last() == s.last());
        assert((f(s.first()) + enc_list(t.drop_first(), f)) + f(s.last()) =~= f(s.first()) + (
        enc_list(s.drop_first().drop_last(), f) + f(s.last())));
    }
}

/// Reading exactly `n` elements with the element reader `g`.
pub open spec fn dec_n<A>(
    d: Seq<u8>,
    i: int,
    n: nat,
    g: spec_fn(Seq<u8>, int) -> Option<(A, int)>,
) -> Option<(Seq<A>, int)>
    decreases n,
{
    if n == 0 {
        Some((Seq::empty(), i))
    } else {
        match g(d, i) {
            None => None,
            Some((a, j)) => match dec_n(d, j, (n - 1) as nat, g) {
                None => None,
                Some((s, k)) => Some((seq![a] + s, k)),
            },
        }
    }
}

/// Reading a length-prefixed sequence.
pub open spec fn dec_seq<A>(
    d: Seq<u8>,
    i: int,
    g: spec_fn(Seq<u8>, int) -> Option<(A, int)>,
) -> Option<(Seq<A>, int)> {
    match spec_read_word(d, i) {
        None => None,
        Some((n, j)) => dec_n(d, j, n as nat, g),
    }
}

/// `g` reads back every embedded occurrence of `f`'s encoding of `a`.
pub open spec fn elem_ok<A>(
    d: Seq<u8>,
    f: spec_fn(A) -> Seq<u8>,
    g: spec_fn(Seq<u8>, int) -> Option<(A, int)>,
    a: A,
) -> bool {
    forall|j: int|
        0 <= j && j + f(a).len() <= d.len() && d.subrange(j, j + f(a).len() as int) == f(a)
            ==> #[trigger] g(d, j) == Some((a, j + f(a).len() as int))
}

/// An embedded element list reads back as itself, element by element.
pub proof fn lemma_dec_n_list<A>(
    d: Seq<u8>,
    i: int,
    s: Seq<A>,
    f: spec_fn(A) -> Seq<u8>,
    g: spec_fn(Seq<u8>, int) -> Option<(A, int)>,
)
    requires
        0 <= i,
        i + enc_list(s, f).len() <= d.len(),
        d.subrange(i, i + enc_list(s, f).len() as int) == enc_list(s, f),
        forall|k: int| 0 <= k < s.len() ==> elem_ok(d, f, g, #[trigger] s[k]),
    ensures
        dec_n(d, i, s.len(), g) == Some((s, i + enc_list(s, f).len() as int)),
    decreases s.len(),
{
    if s.len() == 0 {
        assert(dec_n(d, i, 0, g) == Some((Seq::<A>::empty(), i)));
        assert(s =~= Seq::<A>::empty());
    } else {
        lemma_enc_list_first(s, f);
        let head = f(s.first());
        let tail = enc_list(s.drop_first(), f);
        lemma_subrange_split(d, i, head, tail);
        assert(elem_ok(d, f, g, s[0]));
        assert(g(d, i) == Some((s.first(), i + head.len() as int)));
        assert forall|k: int| 0 <= k < s.drop_first().len() implies elem_ok(
            d,
            f,
            g,
            #[trigger] s.drop_first()[k],
        ) by {
            assert(s.drop_first()[k] == s[k + 1]);
        }
        lemma_dec_n_list(d, i + head.len() as int, s.drop_first(), f, g);
        assert(seq![s.first()] + s.drop_first() =~= s);
    }
}

/// An embedded length-prefixed sequence reads back as itself.
pub proof fn lemma_dec_seq<A>(
    d: Seq<u8>,
    i: int,
    s: Seq<A>,
    f: spec_fn(A) -> Seq<u8>,
    g: spec_fn(Seq<u8>, int) -> Option<(A, int)>,
)
    requires
        0 <= i,
        s.len() <= u64::MAX,
        i + enc_seq(s, f).len() <= d.len(),
        d.subrange(i, i + enc_seq(s, f).len() as int) == enc_seq(s, f),
        forall|k: int| 0 <= k < s.len() ==> elem_ok(d, f, g, #[trigger] s[k]),
    ensures
        dec_seq(d, i, g) == Some((s, i + enc_seq(s, f).len() as int)),
{
    lemma_subrange_split(d, i, le_bytes(s.len() as u64), enc_list(s, f));
    lemma_read_word(d, i, s.len() as u64);
    lemma_dec_n_list(d, i + 8, s, f, g);
}

// ---------------------------------------------------------------------
// The format, type by type.
// ---------------------------------------------------------------------

/// One statement: a tag word, then its payload words.
pub open spec fn enc_stmt(s: Statement) -> Seq<u8> {
    match s {
        Statement::Nop => le_bytes(0),
        Statement::FakeRead(c) => le_bytes(1) + le_bytes(c as u64),
        Statement::Assign(a, b) => le_bytes(2) + le_bytes(a as u64) + le_bytes(b as u64),
    }
}

/// Reading one statement.
pub open spec fn spec_read_stmt(d: Seq<u8>, i: int) -> Option<(Statement, int)> {
    match spec_read_word(d, i) {
        None => None,
        Some((tag, j)) => if tag == 0 {
            Some((Statement::Nop, j))
        } else if tag == 1 {
            match spec_read_u32(d, j) {
                None => None,
                Some((c, k)) => Some((Statement::FakeRead(c), k)),
            }
        } else if tag == 2 {
            match spec_read_u32(d, j) {
                None => None,
                Some((a, k)) => match spec_read_u32(d, k) {
                    None => None,
                    Some((b, l)) => Some((Statement::Assign(a, b), l)),
                },
            }
        } else {
            None
        },
    }
}

/// An embedded statement reads back as itself.
pub proof fn lemma_read_stmt(d: Seq<u8>, i: int, s: Statement)
    requires
        0 <= i,
        i + enc_stmt(s).len() <= d.len(),
        d.subrange(i, i + enc_stmt(s).len() as int) == enc_stmt(s),
    ensures
        spec_read_stmt(d, i) == Some((s, i + enc_stmt(s).len() as int)),
{
    match s {
        Statement::Nop => {
            lemma_read_word(d, i, 0);
        },
        Statement::FakeRead(c) => {
            lemma_subrange_split(d, i, le_bytes(1), le_bytes(c as u64));
            lemma_read_word(d, i, 1);
            lemma_read_u32(d, i + 8, c);
        },
        Statement::Assign(a, b) => {
            lemma_subrange_split(d, i, le_bytes(2) + le_bytes(a as u64), le_bytes(b as u64));
            lemma_subrange_split(d, i, le_bytes(2), le_bytes(a as u64));
            lemma_read_word(d, i, 2);
            lemma_read_u32(d, i + 8, a);
            lemma_read_u32(d, i + 16, b);
        },
    }
}

/// One source scope: cleared, or still carrying a local back-reference.
pub open spec fn enc_scope(s: ScopeData) -> Seq<u8> {
    match s {
        ScopeData::Clear => le_bytes(0),
        ScopeData::Local(x) => le_bytes(1) + le_bytes(x as u64),
    }
}

/// Reading one source scope.
pub open spec fn spec_read_scope(d: Seq<u8>, i: int) -> Option<(ScopeData, int)> {
    match spec_read_word(d, i) {
        None => None,
        Some((tag, j)) => if tag == 0 {
            Some((ScopeData::Clear, j))
        } else if tag == 1 {
            match spec_read_u32(d, j) {
                None => None,
                Some((x, k)) => Some((ScopeData::Local(x), k)),
            }
        } else {
            None
        },
    }
}

/// An embedded source scope reads back as itself.
pub proof fn lemma_read_scope(d: Seq<u8>, i: int, s: ScopeData)
    requires
        0 <= i,
        i + enc_scope(s).len() <= d.len(),
        d.subrange(i, i + enc_scope(s).len() as int) == enc_scope(s),
    ensures
        spec_read_scope(d, i) == Some((s, i + enc_scope(s).len() as int)),
{
    match s {
        ScopeData::Clear => {
            lemma_read_word(d, i, 0);
        },
        ScopeData::Local(x) => {
            lemma_subrange_split(d, i, le_bytes(1), le_bytes(x as u64));
            lemma_read_word(d, i, 1);
            lemma_read_u32(d, i + 8, x);
        },
    }
}

/// One region-subset fact: its two region variables.
pub open spec fn enc_fact(p: (u32, u32)) -> Seq<u8> {
    le_bytes(p.0 as u64) + le_bytes(p.1 as u64)
}

/// Reading one region-subset fact.
pub open spec fn spec_read_fact(d: Seq<u8>, i: int) -> Option<((u32, u32), int)> {
    match spec_read_u32(d, i) {
        None => None,
        Some((a, j)) => match spec_read_u32(d, j) {
            None => None,
            Some((b, k)) => Some(((a, b), k)),
        },
    }
}

/// An embedded fact reads back as itself.
pub proof fn lemma_read_fact(d: Seq<u8>, i: int, p: (u32, u32))
    requires
        0 <= i,
        i + enc_fact(p).len() <= d.len(),
        d.subrange(i, i + enc_fact(p).len() as int) == enc_fact(p),
    ensures
        spec_read_fact(d, i) == Some((p, i + enc_fact(p).len() as int)),
{
    lemma_subrange_split(d, i, le_bytes(p.0 as u64), le_bytes(p.1 as u64));
    lemma_read_u32(d, i, p.0);
    lemma_read_u32(d, i + 8, p.1);
}

/// The canonical statement encoder, shared by every mention of the format.
pub open spec fn enc_stmt_f() -> spec_fn(Statement) -> Seq<u8> {
    |s: Statement| enc_stmt(s)
}

/// The canonical statement reader.
pub open spec fn dec_stmt_f() -> spec_fn(Seq<u8>, int) -> Option<(Statement, int)> {
    |d: Seq<u8>, i: int| spec_read_stmt(d, i)
}

/// The canonical scope encoder.
pub open spec fn enc_scope_f() -> spec_fn(ScopeData) -> Seq<u8> {
    |s: ScopeData| enc_scope(s)
}

/// The canonical scope reader.
pub open spec fn dec_scope_f() -> spec_fn(Seq<u8>, int) -> Option<(ScopeData, int)> {
    |d: Seq<u8>, i: int| spec_read_scope(d, i)
}

/// The canonical fact encoder.
pub open spec fn enc_fact_f() -> spec_fn((u32, u32)) -> Seq<u8> {
    |p: (u32, u32)| enc_fact(p)
}

/// The canonical fact reader.
pub open spec fn dec_fact_f() -> spec_fn(Seq<u8>, int) -> Option<((u32, u32), int)> {
    |d: Seq<u8>, i: int| spec_read_fact(d, i)
}

/// One basic block: its statements, length-prefixed.
pub open spec fn enc_block(b: Seq<Statement>) -> Seq<u8> {
    enc_seq(b, enc_stmt_f())
}

/// Reading one basic block.
pub open spec fn spec_read_block(d: Seq<u8>, i: int) -> Option<(Seq<Statement>, int)> {
    dec_seq(d, i, dec_stmt_f())
}

/// An embedded basic block reads back as itself.
pub proof fn lemma_read_block(d: Seq<u8>, i: int, b: Seq<Statement>)
    requires
        0 <= i,
        b.len() <= u64::MAX,
        i + enc_block(b).len() <= d.len(),
        d.subrange(i, i + enc_block(b).len() as int) == enc_block(b),
    ensures
        spec_read_block(d, i) == Some((b, i + enc_block(b).len() as int)),
{
    assert forall|k: int| 0 <= k < b.len() implies elem_ok(
        d,
        enc_stmt_f(),
        dec_stmt_f(),
        #[trigger] b[k],
    ) by {
        assert forall|j: int|
            0 <= j && j + enc_stmt_f()(b[k]).len() <= d.len() && d.subrange(
                j,
                j + enc_stmt_f()(b[k]).len() as int,
            ) == enc_stmt_f()(b[k]) implies #[trigger] dec_stmt_f()(d, j) == Some(
            (b[k], j + enc_stmt_f()(b[k]).len() as int),
        ) by {
            lemma_read_stmt(d, j, b[k]);
        }
    }
    lemma_dec_seq(d, i, b, enc_stmt_f(), dec_stmt_f());
}

/// The canonical block encoder.
pub open spec fn enc_block_f() -> spec_fn(Seq<Statement>) -> Seq<u8> {
    |b: Seq<Statement>| enc_block(b)
}

/// The canonical block reader.
pub open spec fn dec_block_f() -> spec_fn(Seq<u8>, int) -> Option<(Seq<Statement>, int)> {
    |d: Seq<u8>, i: int| spec_read_block(d, i)
}

/// Every sequence of the representation fits a length word.
pub open spec fn bounded_repr(r: ReprV) -> bool {
    &&& r.source_scopes.len() <= u64::MAX
    &&& r.basic_blocks.len() <= u64::MAX
    &&& forall|i: int| 0 <= i < r.basic_blocks.len() ==> (#[trigger] r.basic_blocks[i]).len()
        <= u64::MAX
}

/// One representation: its scopes, then its blocks.
pub open spec fn enc_repr(r: ReprV) -> Seq<u8> {
    enc_seq(r.source_scopes, enc_scope_f()) + enc_seq(r.basic_blocks, enc_block_f())
}

/// Reading one representation.
pub open spec fn spec_read_repr(d: Seq<u8>, i: int) -> Option<(ReprV, int)> {
    match dec_seq(d, i, dec_scope_f()) {
        None => None,
        Some((scopes, j)) => match dec_seq(d, j, dec_block_f()) {
            None => None,
            Some((blocks, k)) => Some((ReprV { source_scopes: scopes, basic_blocks: blocks }, k)),
        },
    }
}

/// An embedded representation reads back as itself.
pub proof fn lemma_read_repr(d: Seq<u8>, i: int, r: ReprV)
    requires
        0 <= i,
        bounded_repr(r),
        i + enc_repr(r).len() <= d.len(),
        d.subrange(i, i + enc_repr(r).len() as int) == enc_repr(r),
    ensures
        spec_read_repr(d, i) == Some((r, i + enc_repr(r).len() as int)),
{
    let scopes = enc_seq(r.source_scopes, enc_scope_f());
    let blocks = enc_seq(r.basic_blocks, enc_block_f());
    lemma_subrange_split(d, i, scopes, blocks);
    assert forall|k: int| 0 <= k < r.source_scopes.len() implies elem_ok(
        d,
        enc_scope_f(),
        dec_scope_f(),
        #[trigger] r.source_scopes[k],
    ) by {
        assert forall|j: int|
            0 <= j && j + enc_scope_f()(r.source_scopes[k]).len() <= d.len() && d.subrange(
                j,
                j + enc_scope_f()(r.source_scopes[k]).len() as int,
            ) == enc_scope_f()(r.source_scopes[k]) implies #[trigger] dec_scope_f()(d, j) == Some(
            (r.source_scopes[k], j + enc_scope_f()(r.source_scopes[k]).len() as int),
        ) by {
            lemma_read_scope(d, j, r.source_scopes[k]);
        }
    }
    lemma_dec_seq(d, i, r.source_scopes, enc_scope_f(), dec_scope_f());
    assert forall|k: int| 0 <= k < r.basic_blocks.len() implies elem_ok(
        d,
        enc_block_f(),
        dec_block_f(),
        #[trigger] r.basic_blocks[k],
    ) by {
        assert forall|j: int|
            0 <= j && j + enc_block_f()(r.basic_blocks[k]).len() <= d.len() && d.subrange(
                j,
                j + enc_block_f()(r.basic_blocks[k]).len() as int,
            ) == enc_block_f()(r.basic_blocks[k]) implies #[trigger] dec_block_f()(d, j) == Some(
            (r.basic_blocks[k], j + enc_block_f()(r.basic_blocks[k]).len() as int),
        ) by {
            lemma_read_block(d, j, r.basic_blocks[k]);
        }
    }
    lemma_dec_seq(d, i + scopes.len() as int, r.basic_blocks, enc_block_f(), dec_block_f());
}

/// Every sequence of the artifact fits a length word.
pub open spec fn bounded_body(c: CachedBodyV) -> bool {
    bounded_repr(c.body) && c.subset_base.len() <= u64::MAX
}

/// One artifact: its representation, then its facts.
pub open spec fn enc_body(c: CachedBodyV) -> Seq<u8> {
    enc_repr(c.body) + enc_seq(c.subset_base, enc_fact_f())
}

/// Reading one artifact.
pub open spec fn spec_read_body(d: Seq<u8>, i: int) -> Option<(CachedBodyV, int)> {
    match spec_read_repr(d, i) {
        None => None,
        Some((r, j)) => match dec_seq(d, j, dec_fact_f()) {
            None => None,
            Some((facts, k)) => Some((CachedBodyV { body: r, subset_base: facts }, k)),
        },
    }
}

/// An embedded artifact reads back as itself.
pub proof fn lemma_read_body(d: Seq<u8>, i: int, c: CachedBodyV)
    requires
        0 <= i,
        bounded_body(c),
        i + enc_body(c).len() <= d.len(),
        d.subrange(i, i + enc_body(c).len() as int) == enc_body(c),
    ensures
        spec_read_body(d, i) == Some((c, i + enc_body(c).len() as int)),
{
    let repr = enc_repr(c.body);
    let facts = enc_seq(c.subset_base, enc_fact_f());
    lemma_subrange_split(d, i, repr, facts);
    lemma_read_repr(d, i, c.body);
    assert forall|k: int| 0 <= k < c.subset_base.len() implies elem_ok(
        d,
        enc_fact_f(),
        dec_fact_f(),
        #[trigger] c.subset_base[k],
    ) by {
        assert forall|j: int|
            0 <= j && j + enc_fact_f()(c.subset_base[k]).len() <= d.len() && d.subrange(
                j,
                j + enc_fact_f()(c.subset_base[k]).len() as int,
            ) == enc_fact_f()(c.subset_base[k]) implies #[trigger] dec_fact_f()(d, j) == Some(
            (c.subset_base[k], j + enc_fact_f()(c.subset_base[k]).len() as int),
        ) by {
            lemma_read_fact(d, j, c.subset_base[k]);
        }
    }
    lemma_dec_seq(d, i + repr.len() as int, c.subset_base, enc_fact_f(), dec_fact_f());
}

/// Every sequence of the bundle fits a length word.
pub open spec fn bounded_bundle(bv: BundleV) -> bool {
    bv.len() <= u64::MAX && forall|i: int| 0 <= i < bv.len() ==> bounded_body(
        (#[trigger] bv[i]).1,
    )
}

/// One bundle entry: the item identifier, then its artifact.
pub open spec fn enc_item(p: (u32, CachedBodyV)) -> Seq<u8> {
    le_bytes(p.0 as u64) + enc_body(p.1)
}

/// Reading one bundle entry.
pub open spec fn spec_read_item(d: Seq<u8>, i: int) -> Option<((u32, CachedBodyV), int)> {
    match spec_read_u32(d, i) {
        None => None,
        Some((key, j)) => match spec_read_body(d, j) {
            None => None,
            Some((c, k)) => Some(((key, c), k)),
        },
    }
}

/// An embedded bundle entry reads back as itself.
pub proof fn lemma_read_item(d: Seq<u8>, i: int, p: (u32, CachedBodyV))
    requires
        0 <= i,
        bounded_body(p.1),
        i + enc_item(p).len() <= d.len(),
        d.subrange(i, i + enc_item(p).len() as int) == enc_item(p),
    ensures
        spec_read_item(d, i) == Some((p, i + enc_item(p).len() as int)),
{
    lemma_subrange_split(d, i, le_bytes(p.0 as u64), enc_body(p.1));
    lemma_read_u32(d, i, p.0);
    lemma_read_body(d, i + 8, p.1);
}

/// The canonical entry encoder.
pub open spec fn enc_item_f() -> spec_fn((u32, CachedBodyV)) -> Seq<u8> {
    |p: (u32, CachedBodyV)| enc_item(p)
}

/// The canonical entry reader.
pub open spec fn dec_item_f() -> spec_fn(Seq<u8>, int) -> Option<((u32, CachedBodyV), int)> {
    |d: Seq<u8>, i: int| spec_read_item(d, i)
}

/// The whole artifact file: the bundle's entries, length-prefixed.
pub open spec fn spec_encode_bundle(bv: BundleV) -> Seq<u8> {
    enc_seq(bv, enc_item_f())
}

/// What a byte stream decodes to, if anything: the one bundle it encodes.
/// Trailing bytes are rejected.
pub open spec fn spec_decode_bundle(d: Seq<u8>) -> Option<BundleV> {
    match dec_seq(d, 0, dec_item_f()) {
        None => None,
        Some((s, k)) => if k == d.len() {
            Some(s)
        } else {
            None
        },
    }
}

/// Round-trip fidelity: decoding an encoded bundle yields the bundle
/// itself — every item identifier, every fact pair and every statement of
/// every representation — for bundles of zero, one or many items,
/// including items with empty fact sets.
pub proof fn lemma_bundle_round_trip(bv: BundleV)
    requires
        bounded_bundle(bv),
    ensures
        spec_decode_bundle(spec_encode_bundle(bv)) == Some(bv),
{
    let d = spec_encode_bundle(bv);
    assert(d.subrange(0, d.len() as int) =~= d);
    assert forall|k: int| 0 <= k < bv.len() implies elem_ok(
        d,
        enc_item_f(),
        dec_item_f(),
        #[trigger] bv[k],
    ) by {
        assert forall|j: int|
            0 <= j && j + enc_item_f()(bv[k]).len() <= d.len() && d.subrange(
                j,
                j + enc_item_f()(bv[k]).len() as int,
            ) == enc_item_f()(bv[k]) implies #[trigger] dec_item_f()(d, j) == Some(
            (bv[k], j + enc_item_f()(bv[k]).len() as int),
        ) by {
            lemma_read_item(d, j, bv[k]);
        }
    }
    lemma_dec_seq(d, 0, bv, enc_item_f(), dec_item_f());
}

/// Round-trip fidelity for any bundle value held in memory: the length
/// bounds of [`lemma_bundle_round_trip`] hold of every such bundle, since
/// each of its sequences is the view of a vector.
#[verifier::rlimit(100)]
pub proof fn lemma_bundle_value_round_trip(b: Bundle)
    ensures
        bounded_bundle(b@),
        spec_decode_bundle(spec_encode_bundle(b@)) == Some(b@),
{
    broadcast use vstd::std_specs::vec::axiom_spec_len;

    assert forall|i: int| 0 <= i < b@.len() implies bounded_body((#[trigger] b@[i]).1) by {
        let item = b.items@[i];
        assert(b@[i].1 == item.1@);
        assert(vstd::std_specs::vec::spec_vec_len(&item.1.body.source_scopes) <= usize::MAX);
        assert(vstd::std_specs::vec::spec_vec_len(&item.1.body.basic_blocks) <= usize::MAX);
        assert forall|j: int| 0 <= j < item.1.body.basic_blocks@.len() implies (
        #[trigger] item.1@.body.basic_blocks[j]).len() <= usize::MAX by {
            assert(item.1@.body.basic_blocks[j] == item.1.body.basic_blocks@[j].statements@);
            assert(vstd::std_specs::vec::spec_vec_len(&item.1.body.basic_blocks@[j].statements)
                <= usize::MAX);
        }
        assert(vstd::std_specs::vec::spec_vec_len(&item.1.input_facts.subset_base)
            <= usize::MAX);
    }
    assert(vstd::std_specs::vec::spec_vec_len(&b.items) <= usize::MAX);
    assert(b@.len() == b.items@.len());
    assert(bounded_bundle(b@));
    lemma_bundle_round_trip(b@);
}

// ---------------------------------------------------------------------
// Executable encoder.
// ---------------------------------------------------------------------

/// Append one word, little endian.
fn push_word(out: &mut Vec<u8>, x: u64)
    ensures
        final(out)@ == old(out)@ + le_bytes(x),
{
    proof {
        assert(x & 0xff < 256 && (x >> 8) & 0xff < 256 && (x >> 16) & 0xff < 256 && (x >> 24)
            & 0xff < 256 && (x >> 32) & 0xff < 256 && (x >> 40) & 0xff < 256 && (x >> 48) & 0xff
            < 256 && (x >> 56) & 0xff < 256) by (bit_vector);
    }
    out.push((x & 0xff) as u8);
    out.push(((x >> 8) & 0xff) as u8);
    out.push(((x >> 16) & 0xff) as u8);
    out.push(((x >> 24) & 0xff) as u8);
    out.push(((x >> 32) & 0xff) as u8);
    out.push(((x >> 40) & 0xff) as u8);
    out.push(((x >> 48) & 0xff) as u8);
    out.push(((x >> 56) & 0xff) as u8);
    proof {
        assert(out@ =~= old(out)@ + le_bytes(x));
    }
}

/// Append one statement.
fn encode_stmt(out: &mut Vec<u8>, s: Statement)
    ensures
        final(out)@ == old(out)@ + enc_stmt(s),
{
    match s {
        Statement::Nop => {
            push_word(out, 0);
        },
        Statement::FakeRead(c) => {
            push_word(out, 1);
            push_word(out, c as u64);
            proof {
                assert(out@ =~= old(out)@ + enc_stmt(s));
            }
        },
        Statement::Assign(a, b) => {
            push_word(out, 2);
            push_word(out, a as u64);
            push_word(out, b as u64);
            proof {
                assert(out@ =~= old(out)@ + enc_stmt(s));
            }
        },
    }
}

/// Append one source scope.
fn encode_scope(out: &mut Vec<u8>, s: ScopeData)
    ensures
        final(out)@ == old(out)@ + enc_scope(s),
{
    match s {
        ScopeData::Clear => {
            push_word(out, 0);
        },
        ScopeData::Local(x) => {
            push_word(out, 1);
            push_word(out, x as u64);
            proof {
                assert(out@ =~= old(out)@ + enc_scope(s));
            }
        },
    }
}

/// Append one basic block.
fn encode_block(out: &mut Vec<u8>, b: &BasicBlock)
    ensures
        final(out)@ == old(out)@ + enc_block(b@),
{
    let n = b.statements.len();
    push_word(out, n as u64);
    for i in 0..n
        invariant
            n == b.statements@.len(),
            out@ =~= old(out)@ + le_bytes(n as u64) + enc_list(b@.take(i as int), enc_stmt_f()),
    {
        encode_stmt(out, b.statements[i]);
        proof {
            lemma_enc_list_push(b@, i as int, enc_stmt_f());
        }
    }
    proof {
        assert(b@.take(n as int) =~= b@);
        assert(out@ =~= old(out)@ + enc_block(b@));
    }
}

/// Append one representation.
fn encode_repr(out: &mut Vec<u8>, r: &Repr)
    ensures
        final(out)@ == old(out)@ + enc_repr(r@),
{
    let n_scopes = r.source_scopes.len();
    push_word(out, n_scopes as u64);
    for i in 0..n_scopes
        invariant
            n_scopes == r.source_scopes@.len(),
            out@ =~= old(out)@ + le_bytes(n_scopes as u64) + enc_list(
                r@.source_scopes.take(i as int),
                enc_scope_f(),
            ),
    {
        encode_scope(out, r.source_scopes[i]);
        proof {
            lemma_enc_list_push(r@.source_scopes, i as int, enc_scope_f());
        }
    }
    proof {
        assert(r@.source_scopes.take(n_scopes as int) =~= r@.source_scopes);
    }
    let n_blocks = r.basic_blocks.len();
    push_word(out, n_blocks as u64);
    for i in 0..n_blocks
        invariant
            n_blocks == r.basic_blocks@.len(),
            out@ =~= old(out)@ + enc_seq(r@.source_scopes, enc_scope_f()) + le_bytes(
                n_blocks as u64,
            ) + enc_list(r@.basic_blocks.take(i as int), enc_block_f()),
    {
        encode_block(out, &r.basic_blocks[i]);
        proof {
            lemma_enc_list_push(r@.basic_blocks, i as int, enc_block_f());
            assert(r@.basic_blocks[i as int] == r.basic_blocks@[i as int]@);
        }
    }
    proof {
        assert(r@.basic_blocks.take(n_blocks as int) =~= r@.basic_blocks);
        assert(out@ =~= old(out)@ + enc_repr(r@));
    }
}

/// Append one artifact.
fn encode_body(out: &mut Vec<u8>, c: &CachedBody)
    ensures
        final(out)@ == old(out)@ + enc_body(c@),
{
    encode_repr(out, &c.body);
    let n = c.input_facts.subset_base.len();
    push_word(out, n as u64);
    for i in 0..n
        invariant
            n == c.input_facts.subset_base@.len(),
            out@ =~= old(out)@ + enc_repr(c@.body) + le_bytes(n as u64) + enc_list(
                c@.subset_base.take(i as int),
                enc_fact_f(),
            ),
    {
        let (a, b) = c.input_facts.subset_base[i];
        push_word(out, a as u64);
        push_word(out, b as u64);
        proof {
            lemma_enc_list_push(c@.subset_base, i as int, enc_fact_f());
            assert(out@ =~= old(out)@ + enc_repr(c@.body) + le_bytes(n as u64) + enc_list(
                c@.subset_base.take(i + 1),
                enc_fact_f(),
            ));
        }
    }
    proof {
        assert(c@.subset_base.take(n as int) =~= c@.subset_base);
        assert(out@ =~= old(out)@ + enc_body(c@));
    }
}

/// Serialize a bundle into the artifact file format.
pub fn encode_bundle(b: &Bundle) -> (r: Vec<u8>)
    ensures
        r@ == spec_encode_bundle(b@),
{
    let mut out: Vec<u8> = Vec::new();
    let n = b.items.len();
    push_word(&mut out, n as u64);
    for i in 0..n
        invariant
            n == b.items@.len(),
            out@ =~= le_bytes(n as u64) + enc_list(b@.take(i as int), enc_item_f()),
    {
        let (key, _) = b.items[i];
        push_word(&mut out, key as u64);
        encode_body(&mut out, &b.items[i].1);
        proof {
            lemma_enc_list_push(b@, i as int, enc_item_f());
            assert(b@[i as int] == (b.items@[i as int].0, b.items@[i as int].1@));
            assert(out@ =~= le_bytes(n as u64) + enc_list(b@.take(i + 1), enc_item_f()));
        }
    }
    proof {
        assert(b@.take(n as int) =~= b@);
        assert(out@ =~= spec_encode_bundle(b@));
    }
    out
}

// ---------------------------------------------------------------------
// Executable decoder.
// ---------------------------------------------------------------------

/// Read one word, little endian.
fn read_word(d: &Vec<u8>, i: usize) -> (r: Option<(u64, usize)>)
    ensures
        match r {
            Some((x, j)) => spec_read_word(d@, i as int) == Some((x, j as int)) && i <= j
                <= d@.len(),
            None => spec_read_word(d@, i as int) is None,
        },
{
    if d.len() < 8 || i > d.len() - 8 {
        return None;
    }
    let x = (d[i] as u64) | ((d[i + 1] as u64) << 8) | ((d[i + 2] as u64) << 16) | ((d[i
        + 3] as u64) << 24) | ((d[i + 4] as u64) << 32) | ((d[i + 5] as u64) << 40) | ((d[i
        + 6] as u64) << 48) | ((d[i + 7] as u64) << 56);
    proof {
        let s = d@.subrange(i as int, i + 8);
        assert(s[0] == d@[i as int] && s[1] == d@[i + 1] && s[2] == d@[i + 2] && s[3] == d@[i + 3]
            && s[4] == d@[i + 4] && s[5] == d@[i + 5] && s[6] == d@[i + 6] && s[7] == d@[i + 7]);
    }
    Some((x, i + 8))
}

/// Read one word that must fit a 32-bit value.
fn read_u32(d: &Vec<u8>, i: usize) -> (r: Option<(u32, usize)>)
    ensures
        match r {
            Some((x, j)) => spec_read_u32(d@, i as int) == Some((x, j as int)) && i <= j
                <= d@.len(),
            None => spec_read_u32(d@, i as int) is None,
        },
{
    match read_word(d, i) {
        None => None,
        Some((w, j)) => if w <= u32::MAX as u64 {
            Some((w as u32, j))
        } else {
            None
        },
    }
}

/// Read one statement.
fn read_stmt(d: &Vec<u8>, i: usize) -> (r: Option<(Statement, usize)>)
    ensures
        match r {
            Some((s, j)) => spec_read_stmt(d@, i as int) == Some((s, j as int)) && i <= j
                <= d@.len(),
            None => spec_read_stmt(d@, i as int) is None,
        },
{
    let (tag, j) = match read_word(d, i) {
        Some(p) => p,
        None => {
            return None;
        },
    };
    if tag == 0 {
        Some((Statement::Nop, j))
    } else if tag == 1 {
        match read_u32(d, j) {
            None => None,
            Some((c, k)) => Some((Statement::FakeRead(c), k)),
        }
    } else if tag == 2 {
        match read_u32(d, j) {
            None => None,
            Some((a, k)) => match read_u32(d, k) {
                None => None,
                Some((b, l)) => Some((Statement::Assign(a, b), l)),
            },
        }
    } else {
        None
    }
}

/// Read one source scope.
fn read_scope(d: &Vec<u8>, i: usize) -> (r: Option<(ScopeData, usize)>)
    ensures
        match r {
            Some((s, j)) => spec_read_scope(d@, i as int) == Some((s, j as int)) && i <= j
                <= d@.len(),
            None => spec_read_scope(d@, i as int) is None,
        },
{
    let (tag, j) = match read_word(d, i) {
        Some(p) => p,
        None => {
            return None;
        },
    };
    if tag == 0 {
        Some((ScopeData::Clear, j))
    } else if tag == 1 {
        match read_u32(d, j) {
            None => None,
            Some((x, k)) => Some((ScopeData::Local(x), k)),
        }
    } else {
        None
    }
}

/// Read one region-subset fact.
fn read_fact(d: &Vec<u8>, i: usize) -> (r: Option<((u32, u32), usize)>)
    ensures
        match r {
            Some((p, j)) => spec_read_fact(d@, i as int) == Some((p, j as int)) && i <= j
                <= d@.len(),
            None => spec_read_fact(d@, i as int) is None,
        },
{
    match read_u32(d, i) {
        None => None,
        Some((a, j)) => match read_u32(d, j) {
            None => None,
            Some((b, k)) => Some(((a, b), k)),
        },
    }
}

/// Read one basic block.
fn read_block(d: &Vec<u8>, i: usize) -> (r: Option<(BasicBlock, usize)>)
    ensures
        match r {
            Some((b, j)) => spec_read_block(d@, i as int) == Some((b@, j as int)) && i <= j
                <= d@.len(),
            None => spec_read_block(d@, i as int) is None,
        },
{
    let (n, start) = match read_word(d, i) {
        Some(p) => p,
        None => {
            return None;
        },
    };
    let mut stmts: Vec<Statement> = Vec::new();
    let mut pos = start;
    let mut cnt: u64 = 0;
    while cnt < n
        invariant
            cnt <= n,
            i <= pos <= d@.len(),
            spec_read_word(d@, i as int) == Some((n, start as int)),
            dec_n(d@, start as int, n as nat, dec_stmt_f()) == (match dec_n(
                d@,
                pos as int,
                (n - cnt) as nat,
                dec_stmt_f(),
            ) {
                None => None::<(Seq<Statement>, int)>,
                Some((s, k)) => Some((stmts@ + s, k)),
            }),
        decreases n - cnt,
    {
        let (st, j) = match read_stmt(d, pos) {
            Some(p) => p,
            None => {
                return None;
            },
        };
        proof {
            let g = dec_stmt_f();
            let rest = dec_n(d@, j as int, (n - cnt - 1) as nat, g);
            if rest is Some {
                let s = rest.unwrap().0;
                assert(stmts@ + (seq![st] + s) =~= (stmts@ + seq![st]) + s);
            }
            assert(stmts@.push(st) =~= stmts@ + seq![st]);
        }
        stmts.push(st);
        pos = j;
        cnt = cnt + 1;
    }
    proof {
        assert(stmts@ + Seq::<Statement>::empty() =~= stmts@);
    }
    Some((BasicBlock { statements: stmts }, pos))
}

/// Read one representation.
fn read_repr(d: &Vec<u8>, i: usize) -> (r: Option<(Repr, usize)>)
    ensures
        match r {
            Some((rep, j)) => spec_read_repr(d@, i as int) == Some((rep@, j as int)) && i <= j
                <= d@.len(),
            None => spec_read_repr(d@, i as int) is None,
        },
{
    let (n_scopes, scopes_start) = match read_word(d, i) {
        Some(p) => p,
        None => {
            return None;
        },
    };
    let mut scopes: Vec<ScopeData> = Vec::new();
    let mut pos = scopes_start;
    let mut cnt: u64 = 0;
    while cnt < n_scopes
        invariant
            cnt <= n_scopes,
            i <= pos <= d@.len(),
            spec_read_word(d@, i as int) == Some((n_scopes, scopes_start as int)),
            dec_n(d@, scopes_start as int, n_scopes as nat, dec_scope_f()) == (match dec_n(
                d@,
                pos as int,
                (n_scopes - cnt) as nat,
                dec_scope_f(),
            ) {
                None => None::<(Seq<ScopeData>, int)>,
                Some((s, k)) => Some((scopes@ + s, k)),
            }),
        decreases n_scopes - cnt,
    {
        let (sc, j) = match read_scope(d, pos) {
            Some(p) => p,
            None => {
                return None;
            },
        };
        proof {
            let rest = dec_n(d@, j as int, (n_scopes - cnt - 1) as nat, dec_scope_f());
            if rest is Some {
                let s = rest.unwrap().0;
                assert(scopes@ + (seq![sc] + s) =~= (scopes@ + seq![sc]) + s);
            }
            assert(scopes@.push(sc) =~= scopes@ + seq![sc]);
        }
        scopes.push(sc);
        pos = j;
        cnt = cnt + 1;
    }
    proof {
        assert(scopes@ + Seq::<ScopeData>::empty() =~= scopes@);
        assert(dec_seq(d@, i as int, dec_scope_f()) == Some((scopes@, pos as int)));
    }
    let (n_blocks, blocks_start) = match read_word(d, pos) {
        Some(p) => p,
        None => {
            return None;
        },
    };
    let ghost scopes_end = pos as int;
    let mut blocks: Vec<BasicBlock> = Vec::new();
    let mut pos = blocks_start;
    let mut cnt: u64 = 0;
    while cnt < n_blocks
        invariant
            cnt <= n_blocks,
            i <= pos <= d@.len(),
            dec_seq(d@, i as int, dec_scope_f()) == Some((scopes@, scopes_end)),
            spec_read_word(d@, scopes_end) == Some((n_blocks, blocks_start as int)),
            dec_n(d@, blocks_start as int, n_blocks as nat, dec_block_f()) == (match dec_n(
                d@,
                pos as int,
                (n_blocks - cnt) as nat,
                dec_block_f(),
            ) {
                None => None::<(Seq<Seq<Statement>>, int)>,
                Some((s, k)) => Some((blocks@.map_values(|b: BasicBlock| b@) + s, k)),
            }),
        decreases n_blocks - cnt,
    {
        let (blk, j) = match read_block(d, pos) {
            Some(p) => p,
            None => {
                return None;
            },
        };
        proof {
            let bview = blocks@.map_values(|b: BasicBlock| b@);
            let rest = dec_n(d@, j as int, (n_blocks - cnt - 1) as nat, dec_block_f());
            if rest is Some {
                let s = rest.unwrap().0;
                assert(bview + (seq![blk@] + s) =~= (bview + seq![blk@]) + s);
            }
            assert(blocks@.push(blk).map_values(|b: BasicBlock| b@) =~= bview + seq![blk@]);
        }
        blocks.push(blk);
        pos = j;
        cnt = cnt + 1;
    }
    let rep = Repr { source_scopes: scopes, basic_blocks: blocks };
    proof {
        assert(blocks@.map_values(|b: BasicBlock| b@) + Seq::<Seq<Statement>>::empty()
            =~= blocks@.map_values(|b: BasicBlock| b@));
        assert(dec_seq(d@, scopes_end, dec_block_f()) == Some(
            (blocks@.map_values(|b: BasicBlock| b@), pos as int),
        ));
        assert(spec_read_repr(d@, i as int) == Some((rep@, pos as int)));
    }
    Some((rep, pos))
}

/// Read one artifact.
fn read_body(d: &Vec<u8>, i: usize) -> (r: Option<(CachedBody, usize)>)
    ensures
        match r {
            Some((c, j)) => spec_read_body(d@, i as int) == Some((c@, j as int)) && i <= j
                <= d@.len(),
            None => spec_read_body(d@, i as int) is None,
        },
{
    let (rep, facts_at) = match read_repr(d, i) {
        Some(p) => p,
        None => {
            return None;
        },
    };
    let (n, start) = match read_word(d, facts_at) {
        Some(p) => p,
        None => {
            return None;
        },
    };
    let ghost repr_end = facts_at as int;
    let mut facts: Vec<(u32, u32)> = Vec::new();
    let mut pos = start;
    let mut cnt: u64 = 0;
    while cnt < n
        invariant
            cnt <= n,
            i <= pos <= d@.len(),
            spec_read_repr(d@, i as int) == Some((rep@, repr_end)),
            spec_read_word(d@, repr_end) == Some((n, start as int)),
            dec_n(d@, start as int, n as nat, dec_fact_f()) == (match dec_n(
                d@,
                pos as int,
                (n - cnt) as nat,
                dec_fact_f(),
            ) {
                None => None::<(Seq<(u32, u32)>, int)>,
                Some((s, k)) => Some((facts@ + s, k)),
            }),
        decreases n - cnt,
    {
        let (p, j) = match read_fact(d, pos) {
            Some(p) => p,
            None => {
                return None;
            },
        };
        proof {
            let rest = dec_n(d@, j as int, (n - cnt - 1) as nat, dec_fact_f());
            if rest is Some {
                let s = rest.unwrap().0;
                assert(facts@ + (seq![p] + s) =~= (facts@ + seq![p]) + s);
            }
            assert(facts@.push(p) =~= facts@ + seq![p]);
        }
        facts.push(p);
        pos = j;
        cnt = cnt + 1;
    }
    let c = CachedBody { body: rep, input_facts: FlowistryFacts { subset_base: facts } };
    proof {
        assert(facts@ + Seq::<(u32, u32)>::empty() =~= facts@);
        assert(dec_seq(d@, repr_end, dec_fact_f()) == Some((facts@, pos as int)));
        assert(spec_read_body(d@, i as int) == Some((c@, pos as int)));
    }
    Some((c, pos))
}

/// Read one bundle entry.
fn read_item(d: &Vec<u8>, i: usize) -> (r: Option<((u32, CachedBody), usize)>)
    ensures
        match r {
            Some((p, j)) => spec_read_item(d@, i as int) == Some(((p.0, p.1@), j as int)) && i <= j
                <= d@.len(),
            None => spec_read_item(d@, i as int) is None,
        },
{
    let (key, j) = match read_u32(d, i) {
        Some(p) => p,
        None => {
            return None;
        },
    };
    match read_body(d, j) {
        None => None,
        Some((c, k)) => Some(((key, c), k)),
    }
}

/// Deserialize a bundle from the artifact file format. Fails exactly when
/// the bytes are not a well-formed encoding of one bundle.
pub fn decode_bundle(bytes: &Vec<u8>) -> (r: Result<Bundle, CacheError>)
    ensures
        r matches Ok(b) ==> spec_decode_bundle(bytes@) == Some(b@),
        r is Err ==> r == Result::<Bundle, CacheError>::Err(CacheError::DecodeFailed)
            && spec_decode_bundle(bytes@) is None,
{
    let (n, start) = match read_word(bytes, 0) {
        Some(p) => p,
        None => {
            return Err(CacheError::DecodeFailed);
        },
    };
    let mut items: Vec<(u32, CachedBody)> = Vec::new();
    let mut pos = start;
    let mut cnt: u64 = 0;
    while cnt < n
        invariant
            cnt <= n,
            pos <= bytes@.len(),
            spec_read_word(bytes@, 0) == Some((n, start as int)),
            dec_n(bytes@, start as int, n as nat, dec_item_f()) == (match dec_n(
                bytes@,
                pos as int,
                (n - cnt) as nat,
                dec_item_f(),
            ) {
                None => None::<(Seq<(u32, CachedBodyV)>, int)>,
                Some((s, k)) => Some(
                    (items@.map_values(|p: (u32, CachedBody)| (p.0, p.1@)) + s, k),
                ),
            }),
        decreases n - cnt,
    {
        let (item, j) = match read_item(bytes, pos) {
            Some(p) => p,
            None => {
                return Err(CacheError::DecodeFailed);
            },
        };
        proof {
            let iview = items@.map_values(|p: (u32, CachedBody)| (p.0, p.1@));
            let entry = (item.0, item.1@);
            let rest = dec_n(bytes@, j as int, (n - cnt - 1) as nat, dec_item_f());
            if rest is Some {
                let s = rest.unwrap().0;
                assert(iview + (seq![entry] + s) =~= (iview + seq![entry]) + s);
            }
            assert(items@.push(item).map_values(|p: (u32, CachedBody)| (p.0, p.1@)) =~= iview
                + seq![entry]);
        }
        items.push(item);
        pos = j;
        cnt = cnt + 1;
    }
    let b = Bundle { items };
    if pos != bytes.len() {
        proof {
            assert(items@.map_values(|p: (u32, CachedBody)| (p.0, p.1@)) + Seq::<(
                u32,
                CachedBodyV,
            )>::empty() =~= b@);
        }
        return Err(CacheError::DecodeFailed);
    }
    proof {
        assert(items@.map_values(|p: (u32, CachedBody)| (p.0, p.1@)) + Seq::<(
            u32,
            CachedBodyV,
        )>::empty() =~= b@);
        assert(dec_seq(bytes@, 0, dec_item_f()) == Some((b@, pos as int)));
    }
    Ok(b)
}

} // verus!
