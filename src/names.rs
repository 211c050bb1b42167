//! Process identifiers and the names they are printed under.
//!
//! A process is identified by the number of processes allocated before it:
//! the root is `0`, the first forked child `1`, and so on. Identifiers are
//! never reused. The name of an identifier follows a fixed enumeration: the
//! 52 one-letter names (`a`..`z`, `A`..`Z`, with `a` taken by the root), then
//! every two-letter name in alphabetical order, then every three-letter one,
//! and so on without bound.

use vstd::prelude::*;

verus! {

/// The identifier of a process: its position in allocation order.
pub type ProcessId = usize;

/// The identifier of the root process.
pub const ROOT: ProcessId = 0;

/// Number of symbols that names are built from.
pub const BASE: usize = 52;

/// The `d`-th symbol of the naming alphabet.
pub open spec fn symbol(d: int) -> char {
    "abcdefghijklmnopqrstuvwxyzABCDEFGHIJKLMNOPQRSTUVWXYZ"@[d]
}

/// The name of process `n`: one symbol for the first 52 identifiers, and
/// otherwise the name of the block it extends followed by one more symbol.
pub open spec fn name_of(n: nat) -> Seq<char>
    decreases n,
{
    if n < 52 {
        seq![symbol(n as int)]
    } else {
        name_of(((n - 52) / 52) as nat).push(symbol((n - 52) % 52))
    }
}

proof fn lemma_symbols_distinct(d: int, e: int)
    requires
        0 <= d < 52,
        0 <= e < 52,
        d != e,
    ensures
        symbol(d) != symbol(e),
{
    reveal_strlit("abcdefghijklmnopqrstuvwxyzABCDEFGHIJKLMNOPQRSTUVWXYZ");
}

/// Every name is non-empty.
pub proof fn lemma_name_nonempty(n: nat)
    ensures
        name_of(n).len() >= 1,
    decreases n,
{
    if n >= 52 {
        lemma_name_nonempty(((n - 52) / 52) as nat);
    }
}

/// Two distinct identifiers never share a name.
pub proof fn lemma_names_distinct(i: nat, j: nat)
    requires
        i != j,
    ensures
        name_of(i) != name_of(j),
    decreases i + j,
{
    if i < 52 && j < 52 {
        lemma_symbols_distinct(i as int, j as int);
        assert(name_of(i)[0] != name_of(j)[0]);
    } else if i < 52 {
        lemma_name_nonempty(((j - 52) / 52) as nat);
        assert(name_of(i).len() != name_of(j).len());
    } else if j < 52 {
        lemma_name_nonempty(((i - 52) / 52) as nat);
        assert(name_of(i).len() != name_of(j).len());
    } else {
        let pi = ((i - 52) / 52) as nat;
        let pj = ((j - 52) / 52) as nat;
        let di = (i - 52) % 52;
        let dj = (j - 52) % 52;
        if pi == pj {
            assert(di != dj) by (nonlinear_arith)
                requires
                    i != j,
                    i >= 52,
                    j >= 52,
                    pi == (i - 52) / 52,
                    pj == (j - 52) / 52,
                    pi == pj,
                    di == (i - 52) % 52,
                    dj == (j - 52) % 52,
            ;
            lemma_symbols_distinct(di, dj);
            let ni = name_of(i);
            assert(ni[ni.len() - 1] == symbol(di));
            assert(name_of(j)[name_of(j).len() - 1] == symbol(dj));
        } else {
            assert(pi < i && pj < j) by (nonlinear_arith)
                requires
                    i >= 52,
                    j >= 52,
                    pi == (i - 52) / 52,
                    pj == (j - 52) / 52,
            ;
            lemma_names_distinct(pi, pj);
            if name_of(i) == name_of(j) {
                assert(name_of(pi) == name_of(i).drop_last());
                assert(name_of(pj) == name_of(j).drop_last());
            }
        }
    }
}

/// Identifiers handed out in increasing order, as the allocator hands them
/// out, have pairwise distinct names.
pub proof fn lemma_fresh_names(ids: Seq<ProcessId>)
    requires
        forall|i: int, j: int| 0 <= i < j < ids.len() ==> ids[i] < ids[j],
    ensures
        forall|i: int, j: int|
            0 <= i < ids.len() && 0 <= j < ids.len() && i != j ==> #[trigger] name_of(ids[i] as nat)
                != #[trigger] name_of(ids[j] as nat),
{
    assert forall|i: int, j: int|
        0 <= i < ids.len() && 0 <= j < ids.len() && i != j implies #[trigger] name_of(ids[i] as nat)
            != #[trigger] name_of(ids[j] as nat) by {
        lemma_names_distinct(ids[i] as nat, ids[j] as nat);
    }
}

/// The one-symbol string for symbol `d`.
fn symbol_str(d: usize) -> (r: &'static str)
    requires
        d < 52,
    ensures
        r@ == seq![symbol(d as int)],
{
    let alphabet = "abcdefghijklmnopqrstuvwxyzABCDEFGHIJKLMNOPQRSTUVWXYZ";
    proof {
        reveal_strlit("abcdefghijklmnopqrstuvwxyzABCDEFGHIJKLMNOPQRSTUVWXYZ");
    }
    let r = alphabet.substring_char(d, d + 1);
    assert(r@ =~= seq![symbol(d as int)]);
    r
}

/// The printed name of process `id`.
pub fn process_name(id: ProcessId) -> (r: String)
    ensures
        r@ == name_of(id as nat),
    decreases id,
{
    if id < BASE {
        String::from_str(symbol_str(id))
    } else {
        let mut s = process_name((id - BASE) / BASE);
        s.append(symbol_str((id - BASE) % BASE));
        s
    }
}

/// Hands out process identifiers in enumeration order, never twice.
pub struct NameAllocator {
    pub next: usize,
}

impl NameAllocator {
    /// An allocator whose first identifier follows the root's.
    pub fn new() -> (r: Self)
        ensures
            r.next == ROOT + 1,
    {
        NameAllocator { next: ROOT + 1 }
    }

    /// Returns the next identifier in enumeration order.
    pub fn next_id(&mut self) -> (r: ProcessId)
        requires
            old(self).next < usize::MAX,
        ensures
            r == old(self).next,
            final(self).next == old(self).next + 1,
    {
        let r = self.next;
        self.next = self.next + 1;
        r
    }
}

} // verus!
