use vstd::prelude::*;

verus! {

/// One grid slot: empty, or a tile whose displayed value is `2^order`.
///
/// The order is held as a `u8`; order 0 is the empty cell, so every value
/// of the field is a valid cell and a tile of order 0 cannot exist.
#[derive(Clone, Copy, PartialEq, Eq, Structural, Debug)]
pub struct Cell(pub u8);

/// `2^k`, the displayed value of a tile of order `k`.
pub open spec fn magnitude(k: nat) -> nat
    decreases k,
{
    if k == 0 {
        1
    } else {
        2 * magnitude((k - 1) as nat)
    }
}

pub proof fn lemma_magnitude_grows(a: nat, b: nat)
    requires
        a <= b,
    ensures
        1 <= magnitude(a) <= magnitude(b),
    decreases b,
{
    if a < b {
        lemma_magnitude_grows(a, (b - 1) as nat);
    } else if a > 0 {
        lemma_magnitude_grows((a - 1) as nat, (a - 1) as nat);
    }
}

/// No tile from order 64 up has a value that fits in a `usize`.
pub proof fn lemma_magnitude_beyond_usize()
    ensures
        magnitude(64) > usize::MAX,
{
    lemma_magnitude_is_pow2(64);
    vstd::arithmetic::power2::lemma2_to64();
}

proof fn lemma_magnitude_is_pow2(k: nat)
    ensures
        magnitude(k) == vstd::arithmetic::power2::pow2(k),
    decreases k,
{
    if k > 0 {
        lemma_magnitude_is_pow2((k - 1) as nat);
        vstd::arithmetic::power2::lemma_pow2_unfold(k);
    } else {
        vstd::arithmetic::power2::lemma2_to64();
    }
}

impl Cell {
    /// The order of the cell, 0 when it is empty.
    pub open spec fn rank(self) -> nat {
        self.0 as nat
    }

    pub open spec fn is_tile(self) -> bool {
        self.0 > 0
    }

    pub open spec fn empty() -> Cell {
        Cell(0)
    }

    /// The tile one order higher. Order 255 has none above it in a `u8`, and
    /// gives the empty cell: a merge of two such tiles would earn a score of
    /// `2^256`, which no `usize` holds.
    pub open spec fn doubled(self) -> Cell {
        if self.0 < 255 {
            Cell((self.0 + 1) as u8)
        } else {
            Cell(0)
        }
    }

    pub fn new_empty() -> (r: Cell)
        ensures
            r == Cell::empty(),
    {
        Cell(0)
    }

    /// A tile of the given order; order 0 gives the empty cell.
    pub fn new(order: u8) -> (r: Cell)
        ensures
            r.rank() == order,
    {
        Cell(order)
    }

    pub fn is_empty(&self) -> (r: bool)
        ensures
            r == !self.is_tile(),
    {
        self.0 == 0
    }

    pub fn is_nonempty(&self) -> (r: bool)
        ensures
            r == self.is_tile(),
    {
        self.0 != 0
    }

    pub fn order(&self) -> (r: Option<u8>)
        ensures
            r == (if self.is_tile() { Some(self.0) } else { None::<u8> }),
    {
        if self.0 == 0 {
            None
        } else {
            Some(self.0)
        }
    }

    pub fn double(&self) -> (r: Cell)
        requires
            self.is_tile(),
            self.rank() < 255,
        ensures
            r == self.doubled(),
            r.rank() == self.rank() + 1,
    {
        Cell(self.0 + 1)
    }
}


/// The single left-to-right pass of a collapse, from `acc` as the pending
/// tile: the cells it emits and the score it earns.
pub open spec fn merge_run(s: Seq<Cell>, acc: Cell) -> (Seq<Cell>, nat)
    decreases s.len(),
{
    if s.len() == 0 {
        if acc.is_tile() {
            (seq![acc], 0)
        } else {
            (Seq::empty(), 0)
        }
    } else {
        let c = s[0];
        let rest = s.drop_first();
        if !c.is_tile() {
            merge_run(rest, acc)
        } else if !acc.is_tile() {
            merge_run(rest, c)
        } else if acc == c {
            let m = acc.doubled();
            let t = merge_run(rest, Cell::empty());
            (seq![m] + t.0, t.1 + magnitude(acc.rank() + 1))
        } else {
            let t = merge_run(rest, c);
            (seq![acc] + t.0, t.1)
        }
    }
}

/// The tiles of a line after it is collapsed toward index 0, without padding.
pub open spec fn collapsed(s: Seq<Cell>) -> Seq<Cell> {
    merge_run(s, Cell::empty()).0
}

/// The score that collapsing a line earns.
pub open spec fn collapse_score(s: Seq<Cell>) -> nat {
    merge_run(s, Cell::empty()).1
}

/// `s` followed by empty cells up to length `n`.
pub open spec fn padded(s: Seq<Cell>, n: nat) -> Seq<Cell> {
    Seq::new(n, |i: int| if i < s.len() { s[i] } else { Cell::empty() })
}

/// A line after a collapse, padded back to its own length.
pub open spec fn collapsed_line(s: Seq<Cell>) -> Seq<Cell> {
    padded(collapsed(s), s.len())
}

/// A collapse emits no more cells than it reads.
pub proof fn lemma_merge_run_len(s: Seq<Cell>, acc: Cell)
    ensures
        merge_run(s, acc).0.len() <= s.len() + (if acc.is_tile() { 1int } else { 0int }),
    decreases s.len(),
{
    if s.len() > 0 {
        let rest = s.drop_first();
        lemma_merge_run_len(rest, Cell::empty());
        lemma_merge_run_len(rest, s[0]);
        lemma_merge_run_len(rest, acc);
    }
}

/// A collapse that emits as many cells as it reads emits them unchanged.
pub proof fn lemma_merge_run_full(s: Seq<Cell>, acc: Cell)
    requires
        merge_run(s, acc).0.len() == s.len() + (if acc.is_tile() { 1int } else { 0int }),
    ensures
        merge_run(s, acc).0 == (if acc.is_tile() { seq![acc] } else { Seq::<Cell>::empty() }) + s,
    decreases s.len(),
{
    if s.len() == 0 {
        assert(merge_run(s, acc).0 =~= (if acc.is_tile() { seq![acc] } else { Seq::<Cell>::empty() }) + s);
    } else {
        let c = s[0];
        let rest = s.drop_first();
        lemma_merge_run_len(rest, acc);
        lemma_merge_run_len(rest, c);
        lemma_merge_run_len(rest, Cell::empty());
        if c.is_tile() && !acc.is_tile() {
            lemma_merge_run_full(rest, c);
            assert(seq![c] + rest =~= s);
            assert(Seq::<Cell>::empty() + s =~= s);
        } else if c.is_tile() && acc != c {
            lemma_merge_run_full(rest, c);
            assert(seq![acc] + (seq![c] + rest) =~= seq![acc] + s);
        }
    }
}

/// A line that a collapse changes ends with an empty cell afterwards.
pub proof fn lemma_changed_line_ends_empty(s: Seq<Cell>)
    requires
        collapsed_line(s) != s,
    ensures
        s.len() > 0,
        !collapsed_line(s)[s.len() - 1].is_tile(),
{
    lemma_merge_run_len(s, Cell::empty());
    if collapsed(s).len() == s.len() {
        lemma_merge_run_full(s, Cell::empty());
        assert(Seq::<Cell>::empty() + s =~= s);
        assert(collapsed_line(s) =~= s);
    }
}

/// `k` copies of a cell.
pub open spec fn run_of(c: Cell, k: nat) -> Seq<Cell> {
    Seq::new(k, |_i: int| c)
}

/// A line of `k` equal tiles merges exactly `k / 2` times, pair by pair from
/// the front: each merged tile is emitted as it is and never merges again
/// in the same pass, and an odd tile out is emitted last, unchanged.
proof fn lemma_equal_run_collapse(c: Cell, k: nat)
    requires
        c.is_tile(),
        c.rank() < 255,
    ensures
        collapsed(run_of(c, k)) == run_of(c.doubled(), k / 2) + (if k % 2 == 1 { seq![c] } else { Seq::<Cell>::empty() }),
        collapse_score(run_of(c, k)) == (k / 2) * magnitude(c.rank() + 1),
    decreases k,
{
    let tail = if k % 2 == 1 { seq![c] } else { Seq::<Cell>::empty() };
    let big = magnitude(c.rank() + 1);
    if k <= 1 {
        assert(k / 2 == 0);
        assert(0 * big == 0) by (nonlinear_arith);
        if k == 0 {
            assert(run_of(c, 0) =~= Seq::<Cell>::empty());
            assert(run_of(c.doubled(), 0) + tail =~= Seq::<Cell>::empty());
        } else {
            assert(run_of(c, 1)[0] == c);
            assert(run_of(c, 1).drop_first() =~= Seq::<Cell>::empty());
            assert(merge_run(run_of(c, 1), Cell::empty()) == merge_run(Seq::<Cell>::empty(), c));
            assert(run_of(c.doubled(), 0) + tail =~= seq![c]);
        }
    } else {
        let m = c.doubled();
        let s0 = run_of(c, k);
        let s1 = run_of(c, (k - 1) as nat);
        let s2 = run_of(c, (k - 2) as nat);
        assert(s0.drop_first() =~= s1);
        assert(s1.drop_first() =~= s2);
        assert(s0[0] == c);
        assert(s1[0] == c);
        assert(merge_run(s0, Cell::empty()) == merge_run(s1, c));
        let t = merge_run(s2, Cell::empty());
        assert(merge_run(s1, c) == (seq![m] + t.0, t.1 + magnitude(c.rank() + 1)));
        lemma_equal_run_collapse(c, (k - 2) as nat);
        assert((k - 2) as nat / 2 + 1 == k / 2);
        assert((k - 2) as nat % 2 == k % 2);
        assert(seq![m] + (run_of(m, (k - 2) as nat / 2) + tail) =~= run_of(m, k / 2) + tail);
        let h = (k - 2) as nat / 2;
        assert(h * magnitude(c.rank() + 1) + magnitude(c.rank() + 1) == (h + 1) * magnitude(c.rank() + 1))
            by (nonlinear_arith);
    }
}

/// Empty cells at the end of a line change neither what a collapse emits
/// nor its score: a line gives the same result at any length it is padded
/// to.
pub proof fn lemma_trailing_empties(s: Seq<Cell>, p: nat, acc: Cell)
    ensures
        merge_run(s + run_of(Cell::empty(), p), acc) == merge_run(s, acc),
    decreases s.len() + p,
{
    let e = run_of(Cell::empty(), p);
    if s.len() == 0 {
        assert(s + e =~= e);
        if p > 0 {
            assert(e.drop_first() =~= run_of(Cell::empty(), (p - 1) as nat));
            lemma_trailing_empties(s, (p - 1) as nat, acc);
            assert(s + run_of(Cell::empty(), (p - 1) as nat) =~= run_of(Cell::empty(), (p - 1) as nat));
        }
    } else {
        let rest = s.drop_first();
        assert((s + e).drop_first() =~= rest + e);
        assert((s + e)[0] == s[0]);
        lemma_trailing_empties(rest, p, acc);
        lemma_trailing_empties(rest, p, s[0]);
        lemma_trailing_empties(rest, p, Cell::empty());
    }
}

/// The tiles of a line in order, without its empty cells.
pub open spec fn tiles_of(s: Seq<Cell>) -> Seq<Cell>
    decreases s.len(),
{
    if s.len() == 0 {
        Seq::empty()
    } else if s[0].is_tile() {
        seq![s[0]] + tiles_of(s.drop_first())
    } else {
        tiles_of(s.drop_first())
    }
}

proof fn lemma_tiles_of_are_tiles(s: Seq<Cell>)
    ensures
        forall|t: int| 0 <= t < tiles_of(s).len() ==> (#[trigger] tiles_of(s)[t]).is_tile(),
    decreases s.len(),
{
    if s.len() > 0 {
        lemma_tiles_of_are_tiles(s.drop_first());
        let r = tiles_of(s.drop_first());
        if s[0].is_tile() {
            assert(tiles_of(s) == seq![s[0]] + r);
            assert forall|t: int| 0 <= t < tiles_of(s).len() implies (#[trigger] tiles_of(s)[t]).is_tile() by {
                if t > 0 {
                    assert(tiles_of(s)[t] == r[t - 1]);
                } else {
                    assert(tiles_of(s)[0] == s[0]);
                }
            }
        } else {
            assert(tiles_of(s) == r);
        }
    }
}

/// Empty cells anywhere in a line change nothing in its collapse: the
/// line collapses as its tiles alone do.
pub proof fn lemma_collapse_skips_empties(s: Seq<Cell>, acc: Cell)
    ensures
        merge_run(s, acc) == merge_run(tiles_of(s), acc),
    decreases s.len(),
{
    if s.len() > 0 {
        let c = s[0];
        let rest = s.drop_first();
        lemma_collapse_skips_empties(rest, acc);
        lemma_collapse_skips_empties(rest, c);
        lemma_collapse_skips_empties(rest, Cell::empty());
        if c.is_tile() {
            let t = tiles_of(s);
            assert(t[0] == c);
            assert(t.drop_first() =~= tiles_of(rest));
        }
    } else {
        assert(tiles_of(s) =~= s);
    }
}

proof fn lemma_merge_run_half(t: Seq<Cell>, acc: Cell)
    requires
        forall|u: int| 0 <= u < t.len() ==> (#[trigger] t[u]).is_tile(),
    ensures
        2 * merge_run(t, acc).0.len() >= t.len() + (if acc.is_tile() { 1int } else { 0int }),
    decreases t.len(),
{
    if t.len() > 0 {
        let rest = t.drop_first();
        assert forall|u: int| 0 <= u < rest.len() implies (#[trigger] rest[u]).is_tile() by {
            assert(rest[u] == t[u + 1]);
        }
        assert(t[0].is_tile());
        lemma_merge_run_half(rest, acc);
        lemma_merge_run_half(rest, t[0]);
        lemma_merge_run_half(rest, Cell::empty());
    }
}

/// A collapse merges at most half the tiles of a line: of `c` tiles it
/// emits between `c - c / 2` and `c`, so it makes at most `c / 2` merges.
pub proof fn lemma_at_most_half_merge(s: Seq<Cell>)
    ensures
        collapsed(s).len() <= tiles_of(s).len(),
        tiles_of(s).len() - collapsed(s).len() <= tiles_of(s).len() / 2,
{
    lemma_collapse_skips_empties(s, Cell::empty());
    lemma_tiles_of_are_tiles(s);
    lemma_merge_run_half(tiles_of(s), Cell::empty());
    lemma_merge_run_len(tiles_of(s), Cell::empty());
}

/// A line whose tiles are `k` equal tiles, with empty cells anywhere among
/// them, merges exactly `k / 2` times pair by pair: no merged tile merges
/// again in the same pass, and an odd tile out is emitted last, unchanged.
pub proof fn lemma_equal_tiles_collapse(s: Seq<Cell>, c: Cell, k: nat)
    requires
        c.is_tile(),
        c.rank() < 255,
        tiles_of(s) == run_of(c, k),
    ensures
        collapsed(s) == run_of(c.doubled(), k / 2) + (if k % 2 == 1 { seq![c] } else { Seq::<Cell>::empty() }),
        collapse_score(s) == (k / 2) * magnitude(c.rank() + 1),
{
    lemma_collapse_skips_empties(s, Cell::empty());
    lemma_equal_run_collapse(c, k);
}

/// A line with every cell a tile and no two neighbours equal collapses to
/// itself.
pub proof fn lemma_merge_run_no_pairs(s: Seq<Cell>, acc: Cell)
    requires
        forall|t: int| 0 <= t < s.len() ==> (#[trigger] s[t]).is_tile(),
        forall|t: int| 0 <= t < s.len() - 1 ==> #[trigger] s[t] != s[t + 1],
        acc.is_tile() && s.len() > 0 ==> acc != s[0],
    ensures
        merge_run(s, acc).0 == (if acc.is_tile() { seq![acc] } else { Seq::<Cell>::empty() }) + s,
    decreases s.len(),
{
    if s.len() == 0 {
        assert(merge_run(s, acc).0 =~= (if acc.is_tile() { seq![acc] } else { Seq::<Cell>::empty() }) + s);
    } else {
        let c = s[0];
        let rest = s.drop_first();
        assert forall|t: int| 0 <= t < rest.len() - 1 implies #[trigger] rest[t] != rest[t + 1] by {
            assert(s[t + 1] != s[t + 2]);
        }
        if rest.len() > 0 {
            assert(s[0] != s[1]);
        }
        lemma_merge_run_no_pairs(rest, c);
        assert(seq![c] + rest =~= s);
        if acc.is_tile() {
            assert(seq![acc] + (seq![c] + rest) =~= seq![acc] + s);
        } else {
            assert(Seq::<Cell>::empty() + s =~= s);
        }
    }
}

/// Every cell that a collapse emits is a tile, as long as its score stays
/// below `2^64`.
pub proof fn lemma_merge_run_tiles(s: Seq<Cell>, acc: Cell)
    requires
        merge_run(s, acc).1 < magnitude(64),
    ensures
        forall|t: int| 0 <= t < merge_run(s, acc).0.len() ==> (#[trigger] merge_run(s, acc).0[t]).is_tile(),
    decreases s.len(),
{
    if s.len() > 0 {
        let c = s[0];
        let rest = s.drop_first();
        if !c.is_tile() {
            assert(merge_run(s, acc) == merge_run(rest, acc));
            lemma_merge_run_tiles(rest, acc);
        } else if !acc.is_tile() {
            assert(merge_run(s, acc) == merge_run(rest, c));
            lemma_merge_run_tiles(rest, c);
        } else if acc == c {
            let t = merge_run(rest, Cell::empty());
            assert(merge_run(s, acc) == (seq![acc.doubled()] + t.0, t.1 + magnitude(acc.rank() + 1)));
            lemma_merge_run_tiles(rest, Cell::empty());
            if acc.rank() + 1 >= 64 {
                lemma_magnitude_grows(64, acc.rank() + 1);
            }
            assert(acc.doubled().is_tile());
            let out = merge_run(s, acc).0;
            assert forall|t: int| 0 <= t < out.len() implies (#[trigger] out[t]).is_tile() by {
                if t > 0 {
                    assert(out[t] == merge_run(rest, Cell::empty()).0[t - 1]);
                }
            }
        } else {
            let t = merge_run(rest, c);
            assert(merge_run(s, acc) == (seq![acc] + t.0, t.1));
            lemma_merge_run_tiles(rest, c);
            let out = merge_run(s, acc).0;
            assert forall|t: int| 0 <= t < out.len() implies (#[trigger] out[t]).is_tile() by {
                if t > 0 {
                    assert(out[t] == merge_run(rest, c).0[t - 1]);
                }
            }
        }
    }
}

/// A line that collapses to itself toward both ends is all tiles or all
/// empty cells, as long as its score stays below `2^64`.
pub proof fn lemma_fixed_both_ways(l: Seq<Cell>, r: Seq<Cell>)
    requires
        r.len() == l.len(),
        forall|t: int| 0 <= t < l.len() ==> #[trigger] r[t] == l[l.len() - 1 - t],
        collapsed_line(l) == l,
        collapsed_line(r) == r,
        collapse_score(l) < magnitude(64),
        collapse_score(r) < magnitude(64),
    ensures
        (forall|t: int| 0 <= t < l.len() ==> (#[trigger] l[t]).is_tile()) || (forall|t: int|
            0 <= t < l.len() ==> !(#[trigger] l[t]).is_tile()),
{
    let n = l.len() as int;
    lemma_merge_run_tiles(l, Cell::empty());
    lemma_merge_run_tiles(r, Cell::empty());
    lemma_merge_run_len(l, Cell::empty());
    lemma_merge_run_len(r, Cell::empty());
    let cl = collapsed(l);
    let cr = collapsed(r);
    assert forall|t: int| 0 <= t < n implies (#[trigger] l[t]).is_tile() == (t < cl.len()) by {
        assert(l[t] == collapsed_line(l)[t]);
        if t < cl.len() {
            assert(cl[t].is_tile());
        }
    }
    assert forall|t: int| 0 <= t < n implies (#[trigger] r[t]).is_tile() == (t < cr.len()) by {
        assert(r[t] == collapsed_line(r)[t]);
        if t < cr.len() {
            assert(cr[t].is_tile());
        }
    }
    if cl.len() < n {
        assert(!l[n - 1].is_tile());
        assert(r[0] == l[n - 1]);
        assert forall|t: int| 0 <= t < n implies !(#[trigger] l[t]).is_tile() by {
            assert(r[n - 1 - t] == l[t]);
        }
    }
}

/// `2^order` when it fits in a `usize`, `None` otherwise.
fn checked_magnitude(order: u8) -> (r: Option<usize>)
    ensures
        r == (if magnitude(order as nat) <= usize::MAX {
            Some(magnitude(order as nat) as usize)
        } else {
            None::<usize>
        }),
{
    let mut p: usize = 1;
    let mut i: u8 = 0;
    while i < order
        invariant
            i <= order,
            p as nat == magnitude(i as nat),
        decreases order - i,
    {
        match p.checked_mul(2) {
            Some(q) => {
                p = q;
            },
            None => {
                proof {
                    lemma_magnitude_grows((i + 1) as nat, order as nat);
                }
                return None;
            },
        }
        i = i + 1;
    }
    Some(p)
}

impl Cell {
    /// Collapses a line: the merged tiles in order, and the score when it
    /// fits in a `usize`.
    pub fn collapse_parts(val: &[Cell]) -> (r: (Vec<Cell>, Option<usize>))
        ensures
            r.0@ == collapsed(val@),
            r.1 == (if collapse_score(val@) <= usize::MAX {
                Some(collapse_score(val@) as usize)
            } else {
                None::<usize>
            }),
    {
        let mut newval: Vec<Cell> = Vec::new();
        let mut score: Option<usize> = Some(0);
        let mut acc = Cell::new_empty();
        let ghost whole = merge_run(val@, Cell::empty());
        let mut i: usize = 0;
        assert(val@.subrange(0, val@.len() as int) =~= val@);
        assert(newval@ + whole.0 =~= whole.0);
        while i < val.len()
            invariant
                i <= val@.len(),
                whole == merge_run(val@, Cell::empty()),
                whole.0 == newval@ + merge_run(val@.subrange(i as int, val@.len() as int), acc).0,
                score matches Some(sc) ==> whole.1 == sc + merge_run(
                    val@.subrange(i as int, val@.len() as int),
                    acc,
                ).1,
                score is None ==> whole.1 > usize::MAX,
            decreases val@.len() - i,
        {
            let el = val[i];
            let ghost rest = val@.subrange(i as int, val@.len() as int);
            let ghost next = val@.subrange(i + 1, val@.len() as int);
            assert(rest[0] == el);
            assert(rest.drop_first() =~= next);
            if el.is_nonempty() {
                if acc.is_empty() {
                    acc = el;
                } else if acc == el {
                    let acc_double = if acc.0 == 255 {
                        Cell::new_empty()
                    } else {
                        acc.double()
                    };
                    assert(acc_double == acc.doubled());
                    score = match score {
                        None => None,
                        Some(sc) => {
                            if acc.0 == 255 {
                                proof {
                                    lemma_magnitude_grows(64, 256);
                                    lemma_magnitude_beyond_usize();
                                }
                                None
                            } else {
                                match checked_magnitude(acc.0 + 1) {
                                    None => None,
                                    Some(gain) => sc.checked_add(gain),
                                }
                            }
                        },
                    };
                    let ghost before = newval@;
                    newval.push(acc_double);
                    assert(before + (seq![acc_double] + merge_run(next, Cell::empty()).0)
                        =~= newval@ + merge_run(next, Cell::empty()).0);
                    acc = Cell::new_empty();
                } else {
                    let ghost before = newval@;
                    newval.push(acc);
                    assert(before + (seq![acc] + merge_run(next, el).0) =~= newval@ + merge_run(next, el).0);
                    acc = el;
                }
            }
            i = i + 1;
        }
        assert(val@.subrange(val@.len() as int, val@.len() as int) =~= Seq::<Cell>::empty());
        if acc.is_nonempty() {
            newval.push(acc);
        } else {
            assert(newval@ + Seq::<Cell>::empty() =~= newval@);
        }
        assert(whole.0 =~= newval@);
        (newval, score)
    }

    /// Collapses a line, or gives `None` when its score does not fit in a
    /// `usize`.
    pub fn collapse_checked(val: &[Cell]) -> (r: Option<(Vec<Cell>, usize)>)
        ensures
            r is Some <==> collapse_score(val@) <= usize::MAX,
            r matches Some(p) ==> p.0@ == collapsed(val@) && p.1 == collapse_score(val@),
    {
        let (merged, score) = Cell::collapse_parts(val);
        match score {
            Some(sc) => Some((merged, sc)),
            None => None,
        }
    }

    /// Collapses a line toward index 0: the merged tiles in order, without
    /// padding, and the score earned.
    pub fn collapse(val: &[Cell]) -> (r: (Vec<Cell>, usize))
        requires
            collapse_score(val@) <= usize::MAX,
        ensures
            r.0@ == collapsed(val@),
            r.1 == collapse_score(val@),
    {
        match Cell::collapse_checked(val) {
            Some(p) => p,
            None => (Vec::new(), 0),
        }
    }

    /// Collapses a line toward index 0 and pads it back to its length.
    pub fn collapse_array<const N: usize>(val: &[Cell; N]) -> (r: ([Cell; N], usize))
        requires
            collapse_score(val@) <= usize::MAX,
        ensures
            r.0@ == collapsed_line(val@),
            r.1 == collapse_score(val@),
    {
        let (v, score) = Cell::collapse(val.as_slice());
        proof {
            lemma_merge_run_len(val@, Cell::empty());
        }
        let mut out = [Cell::new_empty(); N];
        let mut i: usize = 0;
        while i < v.len()
            invariant
                v@ == collapsed(val@),
                v@.len() <= N,
                val@.len() == N,
                i <= v@.len(),
                out@.len() == N,
                forall|k: int| 0 <= k < i ==> out@[k] == v@[k],
                forall|k: int| i <= k < N ==> out@[k] == Cell::empty(),
            decreases v@.len() - i,
        {
            out[i] = v[i];
            i = i + 1;
        }
        assert(out@ =~= collapsed_line(val@));
        (out, score)
    }
}

} // verus!
