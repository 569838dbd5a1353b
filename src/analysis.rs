//! Wigner-Seitz defect scan: every atom is assigned the global index of its
//! lattice site, the atoms are ordered by site, and one pass over them
//! reports the vacant sites and every occupant of a multiply occupied site.
use vstd::prelude::*;
use rayon::slice::ParallelSliceMut;
use crate::lattice::{global_index, site_index, INDEX_BOUND, MAX_BOX_EXTENT};

verus! {

/// Defect analysis methods.
#[derive(Clone, Copy, Debug, PartialEq, Eq, Structural)]
pub enum AnsAlgorithm {
    /// Wigner-Seitz occupancy of the BCC lattice sites.
    WS,
}

/// One line of the occupancy report.
#[derive(Clone, Copy, Debug, PartialEq, Eq, Structural)]
pub enum SiteRecord {
    /// The site with this global index holds no atom.
    Vacancy(i128),
    /// The site with this global index holds more than one atom; this is one
    /// of them, by its position in the snapshot.
    Occupant(i128, usize),
}

/// State of the scan: index of the last site seen, the first atom seen on it,
/// and whether that atom is still unreported.
pub struct ScanState {
    pub prev_site: int,
    pub prev_atom: usize,
    pub draft: bool,
}

/// The state before the first atom.
pub open spec fn scan_start() -> ScanState {
    ScanState { prev_site: -1, prev_atom: 0, draft: false }
}

/// Vacancy records for the sites `lo, lo + 1, ..., hi - 1`.
pub open spec fn vacancies(lo: int, hi: int) -> Seq<SiteRecord> {
    Seq::new(if hi > lo { (hi - lo) as nat } else { 0 }, |j: int| SiteRecord::Vacancy((lo + j) as i128))
}

/// Records reported when the atom `item.1` on site `item.0` is met in state `st`.
pub open spec fn step_records(st: ScanState, item: (i128, usize)) -> Seq<SiteRecord> {
    if item.0 == st.prev_site {
        if st.draft {
            seq![SiteRecord::Occupant(item.0, item.1), SiteRecord::Occupant(item.0, st.prev_atom)]
        } else {
            seq![SiteRecord::Occupant(item.0, item.1)]
        }
    } else if item.0 == st.prev_site + 1 {
        Seq::empty()
    } else {
        vacancies(st.prev_site + 1, item.0 as int)
    }
}

/// State after the atom `item.1` on site `item.0` is met in state `st`.
pub open spec fn step_state(st: ScanState, item: (i128, usize)) -> ScanState {
    if item.0 == st.prev_site {
        ScanState { draft: false, ..st }
    } else {
        ScanState { prev_site: item.0 as int, prev_atom: item.1, draft: true }
    }
}

/// Records reported by the scan of `items`, from state `st`.
pub open spec fn scan_from(st: ScanState, items: Seq<(i128, usize)>) -> Seq<SiteRecord>
    decreases items.len(),
{
    if items.len() == 0 {
        Seq::empty()
    } else {
        step_records(st, items[0]) + scan_from(step_state(st, items[0]), items.drop_first())
    }
}

/// Records reported by the scan of `items` ordered by site.
pub open spec fn scan_records(items: Seq<(i128, usize)>) -> Seq<SiteRecord> {
    scan_from(scan_start(), items)
}

/// Global index of the site of atom `i`.
pub open spec fn atom_site(sites: Seq<(i32, i32, i32)>, i: int, box_x: int, box_y: int) -> int {
    site_index((sites[i].0 as int, sites[i].1 as int, sites[i].2 as int), box_x, box_y)
}

/// Each atom's site index, paired with the atom's position in the snapshot.
pub open spec fn indexed_sites(sites: Seq<(i32, i32, i32)>, box_x: int, box_y: int) -> Seq<(i128, usize)> {
    Seq::new(sites.len(), |i: int| (atom_site(sites, i, box_x, box_y) as i128, i as usize))
}

/// The items of `s` that lie on site `k`, in their order in `s`.
pub open spec fn on_site(s: Seq<(i128, usize)>, k: i128) -> Seq<(i128, usize)> {
    s.filter(site_is(k))
}

/// The item lies on site `k`.
pub open spec fn site_is(k: i128) -> spec_fn((i128, usize)) -> bool {
    |p: (i128, usize)| p.0 == k
}

/// `t` is `s` ordered by site, atoms on one site kept in their order in `s`.
pub open spec fn is_site_order(s: Seq<(i128, usize)>, t: Seq<(i128, usize)>) -> bool {
    &&& t.len() == s.len()
    &&& forall|i: int, j: int| 0 <= i < j < t.len() ==> t[i].0 <= t[j].0
    &&& forall|k: i128| #[trigger] on_site(t, k) == on_site(s, k)
}

/// Relies on rayon's `ParallelSliceMut::par_sort_by_key`, a stable sort: the
/// items end up ordered by site, and items on one site keep their order.
#[verifier::external_body]
fn sort_by_site(v: &mut Vec<(i128, usize)>)
    ensures
        is_site_order(old(v)@, final(v)@),
{
    v.par_sort_by_key(|p| p.0);
}

/// Assigns each atom's lattice site (x doubled) its global index in a box of
/// `box_x` by `box_y` cells across, orders the atoms by site, and reports
/// each vacant site and each occupant of a multiply occupied site.
///
/// When no site index is negative: atom `a` is reported on site `k` exactly
/// when `k` is its site and another atom shares it; site `k` is reported
/// vacant exactly when it lies below some atom's site and no atom is on it;
/// and no record comes twice.
pub fn find_defects(sites: &Vec<(i32, i32, i32)>, box_x: usize, box_y: usize) -> (r: Vec<SiteRecord>)
    requires
        box_x <= MAX_BOX_EXTENT,
        box_y <= MAX_BOX_EXTENT,
    ensures
        exists|t: Seq<(i128, usize)>|
            is_site_order(indexed_sites(sites@, box_x as int, box_y as int), t) && r@ == scan_records(t),
        (forall|i: int| 0 <= i < sites@.len() ==> 0 <= #[trigger] atom_site(sites@, i, box_x as int, box_y as int))
            ==> {
            &&& forall|k: i128, a: usize| #[trigger]
                r@.contains(SiteRecord::Occupant(k, a)) <==> {
                    &&& a < sites@.len()
                    &&& atom_site(sites@, a as int, box_x as int, box_y as int) == k
                    &&& exists|b: int|
                        0 <= b < sites@.len() && b != a && #[trigger] atom_site(sites@, b, box_x as int, box_y as int)
                            == k
                }
            &&& forall|k: i128| #[trigger]
                r@.contains(SiteRecord::Vacancy(k)) <==> {
                    &&& 0 <= k
                    &&& exists|b: int|
                        0 <= b < sites@.len() && k < #[trigger] atom_site(sites@, b, box_x as int, box_y as int)
                    &&& forall|b: int|
                        0 <= b < sites@.len() ==> #[trigger] atom_site(sites@, b, box_x as int, box_y as int) != k
                }
            &&& r@.no_duplicates()
        },
{
    let mut indexed: Vec<(i128, usize)> = Vec::new();
    let mut i: usize = 0;
    while i < sites.len()
        invariant
            i <= sites.len(),
            box_x <= MAX_BOX_EXTENT,
            box_y <= MAX_BOX_EXTENT,
            indexed@ == indexed_sites(sites@, box_x as int, box_y as int).subrange(0, i as int),
            forall|j: int| 0 <= j < i ==> -INDEX_BOUND <= #[trigger] indexed@[j].0 <= INDEX_BOUND,
            forall|j: int| 0 <= j < i ==> #[trigger] indexed@[j].0 == atom_site(sites@, j, box_x as int, box_y as int),
        decreases sites.len() - i,
    {
        let g: i128 = global_index(sites[i], box_x, box_y);
        indexed.push((g, i));
        i = i + 1;
        assert(indexed@ =~= indexed_sites(sites@, box_x as int, box_y as int).subrange(0, i as int));
    }
    assert(indexed@ =~= indexed_sites(sites@, box_x as int, box_y as int));
    let ghost before = indexed@;
    sort_by_site(&mut indexed);
    proof {
        assert forall|j: int| 0 <= j < indexed@.len() implies -INDEX_BOUND <= #[trigger] indexed@[j].0
            <= INDEX_BOUND by {
            lemma_site_order_keeps_items(before, indexed@, j);
        }
    }
    let r = scan_sorted(&indexed);
    proof {
        let sq = indexed_sites(sites@, box_x as int, box_y as int);
        assert forall|i: int| 0 <= i < sq.len() implies #[trigger] sq[i].0 == atom_site(
            sites@,
            i,
            box_x as int,
            box_y as int,
        ) && sq[i].1 == i by {
            assert(before[i] == sq[i]);
        }
        if forall|i: int| 0 <= i < sites@.len() ==> 0 <= #[trigger] atom_site(sites@, i, box_x as int, box_y as int) {
            assert forall|i: int| 0 <= i < sq.len() implies #[trigger] sq[i].1 == i && 0 <= sq[i].0
                <= INDEX_BOUND by {
                assert(before[i] == sq[i]);
                assert(0 <= atom_site(sites@, i, box_x as int, box_y as int));
            }
            lemma_defects_by_site(sq, indexed@);
            let bx = box_x as int;
            let by = box_y as int;
            assert forall|k: i128, a: usize| #[trigger]
                r@.contains(SiteRecord::Occupant(k, a)) <==> {
                    &&& a < sites@.len()
                    &&& atom_site(sites@, a as int, bx, by) == k
                    &&& exists|b: int| 0 <= b < sites@.len() && b != a && #[trigger] atom_site(sites@, b, bx, by) == k
                } by {
                if exists|b: int| 0 <= b < sq.len() && b != a && #[trigger] sq[b].0 == k {
                    let b = choose|b: int| 0 <= b < sq.len() && b != a && #[trigger] sq[b].0 == k;
                    assert(atom_site(sites@, b, bx, by) == k);
                }
                if exists|b: int| 0 <= b < sites@.len() && b != a && #[trigger] atom_site(sites@, b, bx, by) == k {
                    let b = choose|b: int| 0 <= b < sites@.len() && b != a && #[trigger] atom_site(sites@, b, bx, by) == k;
                    assert(sq[b].0 == k);
                }
                if a < sites@.len() {
                    assert(sq[a as int].0 == atom_site(sites@, a as int, bx, by));
                }
            }
            assert forall|k: i128| #[trigger]
                r@.contains(SiteRecord::Vacancy(k)) <==> {
                    &&& 0 <= k
                    &&& exists|b: int| 0 <= b < sites@.len() && k < #[trigger] atom_site(sites@, b, bx, by)
                    &&& forall|b: int| 0 <= b < sites@.len() ==> #[trigger] atom_site(sites@, b, bx, by) != k
                } by {
                if exists|b: int| 0 <= b < sq.len() && k < #[trigger] sq[b].0 {
                    let b = choose|b: int| 0 <= b < sq.len() && k < #[trigger] sq[b].0;
                    assert(k < atom_site(sites@, b, bx, by));
                }
                if exists|b: int| 0 <= b < sites@.len() && k < #[trigger] atom_site(sites@, b, bx, by) {
                    let b = choose|b: int| 0 <= b < sites@.len() && k < #[trigger] atom_site(sites@, b, bx, by);
                    assert(k < sq[b].0);
                }
                if forall|b: int| 0 <= b < sq.len() ==> #[trigger] sq[b].0 != k {
                    assert forall|b: int| 0 <= b < sites@.len() implies #[trigger] atom_site(sites@, b, bx, by) != k by {
                        assert(sq[b].0 != k);
                    }
                }
                if forall|b: int| 0 <= b < sites@.len() ==> #[trigger] atom_site(sites@, b, bx, by) != k {
                    assert forall|b: int| 0 <= b < sq.len() implies #[trigger] sq[b].0 != k by {
                        assert(atom_site(sites@, b, bx, by) != k);
                    }
                }
            }
        }
    }
    r
}

proof fn lemma_site_order_keeps_items(s: Seq<(i128, usize)>, t: Seq<(i128, usize)>, j: int)
    requires
        is_site_order(s, t),
        0 <= j < t.len(),
    ensures
        s.contains(t[j]),
{
    let k = t[j].0;
    let f = site_is(k);
    assert(on_site(t, k) == on_site(s, k));
    t.lemma_filter_contains(f, j);
    s.lemma_filter_contains_rev(f, t[j]);
}

/// One pass over atoms ordered by site: reports the sites skipped between
/// two consecutive occupied sites as vacancies, and every atom of a site
/// met more than once as an occupant, each exactly once.
pub fn scan_sorted(items: &Vec<(i128, usize)>) -> (r: Vec<SiteRecord>)
    requires
        forall|j: int| 0 <= j < items@.len() ==> -INDEX_BOUND <= #[trigger] items@[j].0 <= INDEX_BOUND,
    ensures
        r@ == scan_records(items@),
{
    let mut out: Vec<SiteRecord> = Vec::new();
    let mut prev_site: i128 = -1;
    let mut prev_atom: usize = 0;
    let mut draft: bool = false;
    let mut i: usize = 0;
    assert(items@.subrange(0, items@.len() as int) =~= items@);
    assert(Seq::<SiteRecord>::empty() + scan_records(items@) =~= scan_records(items@));
    while i < items.len()
        invariant
            i <= items@.len(),
            forall|j: int| 0 <= j < items@.len() ==> -INDEX_BOUND <= #[trigger] items@[j].0 <= INDEX_BOUND,
            -INDEX_BOUND - 1 <= prev_site <= INDEX_BOUND,
            out@ + scan_from(
                ScanState { prev_site: prev_site as int, prev_atom, draft },
                items@.subrange(i as int, items@.len() as int),
            ) == scan_records(items@),
        decreases items@.len() - i,
    {
        let ghost st = ScanState { prev_site: prev_site as int, prev_atom, draft };
        let ghost rest = items@.subrange(i as int, items@.len() as int);
        let ghost base = out@;
        let (site, atom) = items[i];
        assert(rest[0] == (site, atom));
        assert(rest.drop_first() =~= items@.subrange(i + 1, items@.len() as int));
        if site == prev_site {
            out.push(SiteRecord::Occupant(site, atom));
            if draft {
                out.push(SiteRecord::Occupant(site, prev_atom));
            }
            draft = false;
            assert(out@ =~= base + step_records(st, (site, atom)));
        } else if site == prev_site + 1 {
            prev_site = site;
            prev_atom = atom;
            draft = true;
            assert(out@ =~= base + step_records(st, (site, atom)));
        } else {
            let mut k: i128 = prev_site + 1;
            while k < site
                invariant
                    prev_site + 1 <= k,
                    k <= site || site < prev_site + 1,
                    site < prev_site + 1 ==> k == prev_site + 1,
                    -INDEX_BOUND <= site <= INDEX_BOUND,
                    -INDEX_BOUND - 1 <= prev_site <= INDEX_BOUND,
                    out@ =~= base + vacancies(prev_site + 1, k as int),
                decreases site - k,
            {
                out.push(SiteRecord::Vacancy(k));
                k = k + 1;
                assert(out@ =~= base + vacancies(prev_site + 1, k as int));
            }
            assert(vacancies(prev_site + 1, k as int) =~= vacancies(prev_site + 1, site as int));
            assert(out@ =~= base + step_records(st, (site, atom)));
            prev_site = site;
            prev_atom = atom;
            draft = true;
        }
        assert(scan_from(st, rest) == step_records(st, (site, atom)) + scan_from(
            step_state(st, (site, atom)),
            rest.drop_first(),
        ));
        assert(step_state(st, (site, atom)) == ScanState { prev_site: prev_site as int, prev_atom, draft });
        i = i + 1;
        assert(out@ + scan_from(
            ScanState { prev_site: prev_site as int, prev_atom, draft },
            items@.subrange(i as int, items@.len() as int),
        ) =~= base + scan_from(st, rest));
    }
    assert(items@.subrange(i as int, items@.len() as int) =~= Seq::<(i128, usize)>::empty());
    assert(out@ + Seq::<SiteRecord>::empty() =~= out@);
    out
}

/// State of the scan after the atoms `items`, from state `st`.
pub open spec fn state_after(st: ScanState, items: Seq<(i128, usize)>) -> ScanState
    decreases items.len(),
{
    if items.len() == 0 {
        st
    } else {
        state_after(step_state(st, items[0]), items.drop_first())
    }
}

proof fn lemma_scan_push(st: ScanState, u: Seq<(i128, usize)>, x: (i128, usize))
    ensures
        scan_from(st, u.push(x)) == scan_from(st, u) + step_records(state_after(st, u), x),
        state_after(st, u.push(x)) == step_state(state_after(st, u), x),
    decreases u.len(),
{
    if u.len() == 0 {
        let e = Seq::<(i128, usize)>::empty();
        assert(u.push(x).drop_first() =~= e);
        assert(u.push(x)[0] == x);
        assert(scan_from(step_state(st, x), e) == Seq::<SiteRecord>::empty());
        assert(state_after(step_state(st, x), e) == step_state(st, x));
        assert(scan_from(st, u) == Seq::<SiteRecord>::empty());
        assert(state_after(st, u) == st);
        assert(step_records(st, x) + Seq::<SiteRecord>::empty() =~= step_records(st, x));
        assert(Seq::<SiteRecord>::empty() + step_records(st, x) =~= step_records(st, x));
    } else {
        assert(u.push(x)[0] == u[0]);
        assert(u.push(x).drop_first() =~= u.drop_first().push(x));
        lemma_scan_push(step_state(st, u[0]), u.drop_first(), x);
        let a = step_records(st, u[0]);
        let b = scan_from(step_state(st, u[0]), u.drop_first());
        let c = step_records(state_after(st, u), x);
        assert(a + (b + c) =~= (a + b) + c);
    }
}

proof fn lemma_concat_contains<A>(a: Seq<A>, b: Seq<A>, x: A)
    ensures
        (a + b).contains(x) <==> a.contains(x) || b.contains(x),
{
    if (a + b).contains(x) {
        let i = choose|i: int| 0 <= i < (a + b).len() && (a + b)[i] == x;
        if i < a.len() {
            assert(a[i] == x);
        } else {
            assert(b[i - a.len()] == x);
        }
    }
    if a.contains(x) {
        let i = choose|i: int| 0 <= i < a.len() && a[i] == x;
        assert((a + b)[i] == x);
    }
    if b.contains(x) {
        let i = choose|i: int| 0 <= i < b.len() && b[i] == x;
        assert((a + b)[a.len() + i] == x);
    }
}

proof fn lemma_vacancies_contain(lo: int, hi: int, r: SiteRecord)
    requires
        0 <= lo,
        hi <= INDEX_BOUND,
    ensures
        vacancies(lo, hi).contains(r) <==> (r matches SiteRecord::Vacancy(k) && lo <= k < hi),
{
    if let SiteRecord::Vacancy(k) = r {
        if lo <= k < hi {
            assert(vacancies(lo, hi)[k - lo] == r);
        }
    }
}

/// Items ordered by site, every site non-negative.
pub open spec fn sorted_sites(t: Seq<(i128, usize)>) -> bool {
    &&& forall|i: int, j: int| 0 <= i < j < t.len() ==> t[i].0 <= t[j].0
    &&& forall|i: int| 0 <= i < t.len() ==> 0 <= #[trigger] t[i].0 <= INDEX_BOUND
}

/// Item `m` of `t` shares its site with another of the first `n` items.
pub open spec fn shares_site(t: Seq<(i128, usize)>, n: int, m: int) -> bool {
    exists|j: int| 0 <= j < n && j != m && #[trigger] t[j].0 == t[m].0
}

/// Site `k` lies below the site of item `n - 1` and no item before `n`
/// occupies it.
pub open spec fn empty_below(t: Seq<(i128, usize)>, n: int, k: i128) -> bool {
    n > 0 && 0 <= k < t[n - 1].0 && forall|m: int| 0 <= m < n ==> #[trigger] t[m].0 != k
}

spec fn prefix_ok(t: Seq<(i128, usize)>, n: int, st: ScanState, rs: Seq<SiteRecord>) -> bool {
    &&& n == 0 ==> st == scan_start()
    &&& n > 0 ==> st.prev_site == t[n - 1].0 && (st.draft <==> !shares_site(t, n, n - 1)) && (st.draft
        ==> st.prev_atom == t[n - 1].1)
    &&& forall|k: i128, a: usize| #[trigger]
        rs.contains(SiteRecord::Occupant(k, a)) <==> exists|m: int|
            0 <= m < n && #[trigger] t[m] == (k, a) && shares_site(t, n, m)
    &&& forall|k: i128| #[trigger] rs.contains(SiteRecord::Vacancy(k)) <==> empty_below(t, n, k)
}

proof fn lemma_scan_prefix(t: Seq<(i128, usize)>, n: int)
    requires
        sorted_sites(t),
        0 <= n <= t.len(),
    ensures
        prefix_ok(t, n, state_after(scan_start(), t.take(n)), scan_from(scan_start(), t.take(n))),
    decreases n,
{
    if n == 0 {
        assert(t.take(0) =~= Seq::<(i128, usize)>::empty());
        let rs = scan_from(scan_start(), t.take(0));
        assert(rs =~= Seq::<SiteRecord>::empty());
    } else {
        let i = n - 1;
        lemma_scan_prefix(t, i);
        let u = t.take(i);
        let x = t[i];
        assert(t.take(n) =~= u.push(x));
        lemma_scan_push(scan_start(), u, x);
        let st = state_after(scan_start(), u);
        let rs = scan_from(scan_start(), u);
        let new = step_records(st, x);
        let rs2 = rs + new;
        let st2 = step_state(st, x);
        assert(0 <= x.0);
        if i > 0 {
            assert(t[i - 1].0 <= x.0);
        }
        // the items before `i` lie on sites no higher than `t[i - 1]`
        assert forall|m: int| 0 <= m < i implies #[trigger] t[m].0 <= t[i - 1].0 by {
            if m < i - 1 {
            }
        }
        if x.0 == st.prev_site {
            assert(i > 0);
            assert(shares_site(t, n, i)) by {
                assert(t[i - 1].0 == t[i].0);
            }
            assert(shares_site(t, n, i - 1)) by {
                assert(t[i].0 == t[i - 1].0);
            }
            assert(!st2.draft);
            assert forall|k: i128, a: usize| #[trigger]
                rs2.contains(SiteRecord::Occupant(k, a)) <==> exists|m: int|
                    0 <= m < n && #[trigger] t[m] == (k, a) && shares_site(t, n, m) by {
                lemma_concat_contains(rs, new, SiteRecord::Occupant(k, a));
                if rs.contains(SiteRecord::Occupant(k, a)) {
                    let m = choose|m: int| 0 <= m < i && #[trigger] t[m] == (k, a) && shares_site(t, i, m);
                    let j = choose|j: int| 0 <= j < i && j != m && #[trigger] t[j].0 == t[m].0;
                    assert(shares_site(t, n, m));
                }
                if new.contains(SiteRecord::Occupant(k, a)) {
                    if st.draft {
                        if (k, a) == x {
                            assert(t[i] == (k, a));
                        } else {
                            assert(new[1] == SiteRecord::Occupant(k, a));
                            assert(t[i - 1] == (k, a));
                        }
                    } else {
                        assert(new[0] == SiteRecord::Occupant(k, a));
                        assert(t[i] == (k, a));
                    }
                }
                if exists|m: int| 0 <= m < n && #[trigger] t[m] == (k, a) && shares_site(t, n, m) {
                    let m = choose|m: int| 0 <= m < n && #[trigger] t[m] == (k, a) && shares_site(t, n, m);
                    let j = choose|j: int| 0 <= j < n && j != m && #[trigger] t[j].0 == t[m].0;
                    if m == i {
                        assert(new[0] == SiteRecord::Occupant(k, a));
                        assert(new.contains(SiteRecord::Occupant(k, a)));
                    } else if j < i {
                        assert(shares_site(t, i, m));
                        assert(rs.contains(SiteRecord::Occupant(k, a)));
                    } else if m == i - 1 {
                        if st.draft {
                            assert(new[1] == SiteRecord::Occupant(k, a));
                            assert(new.contains(SiteRecord::Occupant(k, a)));
                        } else {
                            let j2 = choose|j2: int| 0 <= j2 < i && j2 != i - 1 && #[trigger] t[j2].0 == t[i
                                - 1].0;
                            assert(shares_site(t, i, m));
                            assert(rs.contains(SiteRecord::Occupant(k, a)));
                        }
                    } else {
                        assert(t[m].0 == t[i - 1].0);
                        assert(shares_site(t, i, m));
                        assert(rs.contains(SiteRecord::Occupant(k, a)));
                    }
                }
            }
            assert forall|k: i128| #[trigger] rs2.contains(SiteRecord::Vacancy(k)) <==> empty_below(t, n, k) by {
                lemma_concat_contains(rs, new, SiteRecord::Vacancy(k));
                if new.contains(SiteRecord::Vacancy(k)) {
                    let q = choose|q: int| 0 <= q < new.len() && new[q] == SiteRecord::Vacancy(k);
                }
                if empty_below(t, n, k) {
                    assert(empty_below(t, i, k));
                }
                if empty_below(t, i, k) {
                    assert(t[i].0 != k);
                    assert(empty_below(t, n, k));
                }
            }
        } else {
            assert(x.0 > st.prev_site);
            assert forall|m: int| 0 <= m < i implies #[trigger] t[m].0 < x.0 by {}
            assert(!shares_site(t, n, i));
            assert(st2.draft && st2.prev_atom == x.1 && st2.prev_site == x.0);
            let lo = st.prev_site + 1;
            assert(new.len() == 0 || new =~= vacancies(lo, x.0 as int));
            assert forall|k: i128, a: usize| #[trigger]
                rs2.contains(SiteRecord::Occupant(k, a)) <==> exists|m: int|
                    0 <= m < n && #[trigger] t[m] == (k, a) && shares_site(t, n, m) by {
                lemma_concat_contains(rs, new, SiteRecord::Occupant(k, a));
                if x.0 != lo {
                    lemma_vacancies_contain(lo, x.0 as int, SiteRecord::Occupant(k, a));
                }
                if rs.contains(SiteRecord::Occupant(k, a)) {
                    let m = choose|m: int| 0 <= m < i && #[trigger] t[m] == (k, a) && shares_site(t, i, m);
                    let j = choose|j: int| 0 <= j < i && j != m && #[trigger] t[j].0 == t[m].0;
                    assert(shares_site(t, n, m));
                }
                if exists|m: int| 0 <= m < n && #[trigger] t[m] == (k, a) && shares_site(t, n, m) {
                    let m = choose|m: int| 0 <= m < n && #[trigger] t[m] == (k, a) && shares_site(t, n, m);
                    let j = choose|j: int| 0 <= j < n && j != m && #[trigger] t[j].0 == t[m].0;
                    assert(m != i);
                    assert(j != i);
                    assert(shares_site(t, i, m));
                }
            }
            assert forall|k: i128| #[trigger] rs2.contains(SiteRecord::Vacancy(k)) <==> empty_below(t, n, k) by {
                lemma_concat_contains(rs, new, SiteRecord::Vacancy(k));
                if x.0 != lo {
                    lemma_vacancies_contain(lo, x.0 as int, SiteRecord::Vacancy(k));
                }
                if empty_below(t, n, k) {
                    if i > 0 && k < t[i - 1].0 {
                        assert(empty_below(t, i, k));
                    } else if i > 0 && k == t[i - 1].0 {
                        assert(t[i - 1].0 != k);
                    }
                }
                if empty_below(t, i, k) {
                    assert(empty_below(t, n, k));
                }
                if lo <= k < x.0 {
                    assert forall|m: int| 0 <= m < n implies #[trigger] t[m].0 != k by {
                        if m < i {
                            if i > 0 {
                                assert(t[m].0 <= t[i - 1].0);
                            }
                        }
                    }
                    assert(empty_below(t, n, k));
                }
            }
        }
    }
}

proof fn lemma_concat_distinct(a: Seq<SiteRecord>, b: Seq<SiteRecord>)
    requires
        a.no_duplicates(),
        b.no_duplicates(),
        forall|x: SiteRecord| a.contains(x) ==> !b.contains(x),
    ensures
        (a + b).no_duplicates(),
{
    let c = a + b;
    assert forall|i: int, j: int| 0 <= i < c.len() && 0 <= j < c.len() && i != j implies c[i] != c[j] by {
        if i < a.len() && j >= a.len() {
            assert(a.contains(c[i]) && b.contains(c[j]));
        } else if i >= a.len() && j < a.len() {
            assert(a.contains(c[j]) && b.contains(c[i]));
        } else if i < a.len() {
            assert(c[i] == a[i] && c[j] == a[j]);
        } else {
            assert(c[i] == b[i - a.len()] && c[j] == b[j - a.len()]);
        }
    }
}

proof fn lemma_scan_prefix_distinct(t: Seq<(i128, usize)>, n: int)
    requires
        sorted_sites(t),
        t.no_duplicates(),
        0 <= n <= t.len(),
    ensures
        scan_from(scan_start(), t.take(n)).no_duplicates(),
    decreases n,
{
    if n == 0 {
        assert(t.take(0) =~= Seq::<(i128, usize)>::empty());
    } else {
        let i = n - 1;
        lemma_scan_prefix_distinct(t, i);
        lemma_scan_prefix(t, i);
        let u = t.take(i);
        let x = t[i];
        assert(t.take(n) =~= u.push(x));
        lemma_scan_push(scan_start(), u, x);
        let st = state_after(scan_start(), u);
        let rs = scan_from(scan_start(), u);
        let new = step_records(st, x);
        if x.0 == st.prev_site {
            assert(i > 0);
            assert(t[i] != t[i - 1]);
            assert(new.no_duplicates());
            assert forall|r: SiteRecord| rs.contains(r) implies !new.contains(r) by {
                if new.contains(r) {
                    let q = choose|q: int| 0 <= q < new.len() && new[q] == r;
                    if q == 0 {
                        let m = choose|m: int| 0 <= m < i && #[trigger] t[m] == x && shares_site(t, i, m);
                        assert(t[m] == t[i]);
                    } else {
                        let m = choose|m: int| 0 <= m < i && #[trigger] t[m] == (x.0, st.prev_atom) && shares_site(t, i, m);
                        assert(t[m] == t[i - 1]);
                        if m != i - 1 {
                            assert(t[m] == t[i - 1]);
                        }
                    }
                }
            }
            lemma_concat_distinct(rs, new);
        } else {
            let lo = st.prev_site + 1;
            if i > 0 {
                assert(t[i - 1].0 <= x.0);
            }
            assert(new.no_duplicates()) by {
                if x.0 != lo {
                    assert forall|p: int, q: int| 0 <= p < new.len() && 0 <= q < new.len() && p != q implies new[p]
                        != new[q] by {}
                }
            }
            assert forall|r: SiteRecord| rs.contains(r) implies !new.contains(r) by {
                if x.0 != lo && new.contains(r) {
                    lemma_vacancies_contain(lo, x.0 as int, r);
                    if let SiteRecord::Vacancy(k) = r {
                        assert(empty_below(t, i, k));
                    }
                }
            }
            lemma_concat_distinct(rs, new);
        }
    }
}

/// What the scan of atoms ordered by site reports, for non-negative sites:
/// an atom is reported as an occupant exactly when another atom shares its
/// site, and a site as vacant exactly when it lies below the highest
/// occupied site and no atom occupies it. Singly occupied sites, and the
/// sites above the highest occupied one, are never reported; when no atom
/// is listed twice, no record is reported twice.
pub proof fn lemma_scan_reports_defects(t: Seq<(i128, usize)>)
    requires
        sorted_sites(t),
    ensures
        forall|k: i128, a: usize| #[trigger]
            scan_records(t).contains(SiteRecord::Occupant(k, a)) <==> exists|m: int|
                0 <= m < t.len() && #[trigger] t[m] == (k, a) && shares_site(t, t.len() as int, m),
        forall|k: i128| #[trigger]
            scan_records(t).contains(SiteRecord::Vacancy(k)) <==> empty_below(t, t.len() as int, k),
        t.no_duplicates() ==> scan_records(t).no_duplicates(),
{
    lemma_scan_prefix(t, t.len() as int);
    if t.no_duplicates() {
        lemma_scan_prefix_distinct(t, t.len() as int);
    }
    assert(t.take(t.len() as int) =~= t);
}

proof fn lemma_site_order_has_items(s: Seq<(i128, usize)>, t: Seq<(i128, usize)>, j: int)
    requires
        is_site_order(s, t),
        0 <= j < s.len(),
    ensures
        t.contains(s[j]),
{
    let k = s[j].0;
    let f = site_is(k);
    assert(on_site(t, k) == on_site(s, k));
    s.lemma_filter_contains(f, j);
    t.lemma_filter_contains_rev(f, s[j]);
}

proof fn lemma_filter_keeps_distinct(s: Seq<(i128, usize)>, p: spec_fn((i128, usize)) -> bool)
    requires
        s.no_duplicates(),
    ensures
        s.filter(p).no_duplicates(),
    decreases s.len(),
{
    reveal(Seq::filter);
    if s.len() > 0 {
        let d = s.drop_last();
        assert(d.no_duplicates()) by {
            assert forall|i: int, j: int| 0 <= i < d.len() && 0 <= j < d.len() && i != j implies d[i] != d[j] by {
                assert(d[i] == s[i] && d[j] == s[j]);
            }
        }
        lemma_filter_keeps_distinct(d, p);
        if p(s.last()) {
            let f = d.filter(p);
            if f.contains(s.last()) {
                d.lemma_filter_contains_rev(p, s.last());
                let i = choose|i: int| 0 <= i < d.len() && d[i] == s.last();
                assert(s[i] == s[s.len() - 1]);
            }
            let g = f.push(s.last());
            assert forall|i: int, j: int| 0 <= i < g.len() && 0 <= j < g.len() && i != j implies g[i] != g[j] by {
                if i < f.len() && j < f.len() {
                } else if i < f.len() {
                    assert(f.contains(f[i]));
                } else {
                    assert(f.contains(f[j]));
                }
            }
        }
    }
}

proof fn lemma_filter_sees_repeat(t: Seq<(i128, usize)>, p: spec_fn((i128, usize)) -> bool, j: int, m: int)
    requires
        0 <= j < m < t.len(),
        t[j] == t[m],
        p(t[j]),
    ensures
        !t.filter(p).no_duplicates(),
    decreases t.len(),
{
    reveal(Seq::filter);
    let d = t.drop_last();
    let f = d.filter(p);
    let g = f.push(t.last());
    if m < t.len() - 1 {
        assert(d[j] == t[j] && d[m] == t[m]);
        lemma_filter_sees_repeat(d, p, j, m);
        let (a, b) = choose|a: int, b: int| 0 <= a < f.len() && 0 <= b < f.len() && a != b && f[a] == f[b];
        if p(t.last()) {
            assert(t.filter(p) == g);
            assert(g[a] == g[b]);
        } else {
            assert(t.filter(p) == f);
        }
    } else {
        assert(t.filter(p) == g);
        assert(d[j] == t[j]);
        d.lemma_filter_contains(p, j);
        let q = choose|q: int| 0 <= q < f.len() && f[q] == t[j];
        assert(g[q] == g[f.len() as int]);
    }
}

/// The scan of atoms ordered by site, stated over the atoms themselves:
/// `s` holds each atom's site index with the atom's number, and `t` is `s`
/// ordered by site.
proof fn lemma_defects_by_site(s: Seq<(i128, usize)>, t: Seq<(i128, usize)>)
    requires
        is_site_order(s, t),
        forall|i: int| 0 <= i < s.len() ==> #[trigger] s[i].1 == i && 0 <= s[i].0 <= INDEX_BOUND,
    ensures
        forall|k: i128, a: usize| #[trigger]
            scan_records(t).contains(SiteRecord::Occupant(k, a)) <==> {
                &&& a < s.len()
                &&& s[a as int].0 == k
                &&& exists|b: int| 0 <= b < s.len() && b != a && #[trigger] s[b].0 == k
            },
        forall|k: i128| #[trigger]
            scan_records(t).contains(SiteRecord::Vacancy(k)) <==> {
                &&& 0 <= k
                &&& exists|b: int| 0 <= b < s.len() && k < #[trigger] s[b].0
                &&& forall|b: int| 0 <= b < s.len() ==> #[trigger] s[b].0 != k
            },
        scan_records(t).no_duplicates(),
{
    let n = t.len() as int;
    // every item of `t` is an atom of `s`, and every atom is in `t`
    assert forall|m: int| 0 <= m < n implies #[trigger] t[m] == s[t[m].1 as int] && t[m].1 < n by {
        lemma_site_order_keeps_items(s, t, m);
        let i = choose|i: int| 0 <= i < s.len() && s[i] == t[m];
    }
    assert(sorted_sites(t)) by {
        assert forall|m: int| 0 <= m < n implies 0 <= #[trigger] t[m].0 <= INDEX_BOUND by {
            assert(t[m] == s[t[m].1 as int]);
        }
    }
    assert(s.no_duplicates()) by {
        assert forall|i: int, j: int| 0 <= i < s.len() && 0 <= j < s.len() && i != j implies s[i] != s[j] by {
            assert(s[i].1 == i && s[j].1 == j);
        }
    }
    assert forall|j: int, m: int| 0 <= j < n && 0 <= m < n && j != m && t[j].0 == t[m].0 implies #[trigger] t[j].1
        != #[trigger] t[m].1 by {
        let k = t[m].0;
        lemma_filter_keeps_distinct(s, site_is(k));
        assert(on_site(t, k) == on_site(s, k));
        if t[j].1 == t[m].1 {
            assert(t[j] == t[m]);
            assert(t.filter(site_is(k)).no_duplicates());
            if j < m {
                lemma_filter_sees_repeat(t, site_is(k), j, m);
            } else {
                lemma_filter_sees_repeat(t, site_is(k), m, j);
            }
        }
    }
    assert(t.no_duplicates()) by {
        assert forall|j: int, m: int| 0 <= j < n && 0 <= m < n && j != m implies t[j] != t[m] by {
            if t[j].0 == t[m].0 {
                assert(t[j].1 != t[m].1);
            }
        }
    }
    lemma_scan_reports_defects(t);
    assert forall|k: i128, a: usize| #[trigger]
        scan_records(t).contains(SiteRecord::Occupant(k, a)) <==> {
            &&& a < s.len()
            &&& s[a as int].0 == k
            &&& exists|b: int| 0 <= b < s.len() && b != a && #[trigger] s[b].0 == k
        } by {
        if scan_records(t).contains(SiteRecord::Occupant(k, a)) {
            let m = choose|m: int| 0 <= m < n && #[trigger] t[m] == (k, a) && shares_site(t, n, m);
            let j = choose|j: int| 0 <= j < n && j != m && #[trigger] t[j].0 == t[m].0;
            assert(t[m] == s[t[m].1 as int]);
            assert(t[j] == s[t[j].1 as int]);
            assert(t[j].1 != t[m].1);
            let b = t[j].1 as int;
            assert(s[b].0 == k);
        }
        if a < s.len() && s[a as int].0 == k && exists|b: int| 0 <= b < s.len() && b != a && #[trigger] s[b].0 == k {
            let b = choose|b: int| 0 <= b < s.len() && b != a && #[trigger] s[b].0 == k;
            lemma_site_order_has_items(s, t, a as int);
            lemma_site_order_has_items(s, t, b);
            let m = choose|m: int| 0 <= m < n && t[m] == s[a as int];
            let j = choose|j: int| 0 <= j < n && t[j] == s[b];
            assert(t[m] == (k, a));
            assert(t[j].0 == t[m].0 && j != m);
            assert(shares_site(t, n, m));
        }
    }
    assert forall|k: i128| #[trigger]
        scan_records(t).contains(SiteRecord::Vacancy(k)) <==> {
            &&& 0 <= k
            &&& exists|b: int| 0 <= b < s.len() && k < #[trigger] s[b].0
            &&& forall|b: int| 0 <= b < s.len() ==> #[trigger] s[b].0 != k
        } by {
        if empty_below(t, n, k) {
            let b = t[n - 1].1 as int;
            assert(t[n - 1] == s[b]);
            assert forall|c: int| 0 <= c < s.len() implies #[trigger] s[c].0 != k by {
                lemma_site_order_has_items(s, t, c);
                let m = choose|m: int| 0 <= m < n && t[m] == s[c];
                assert(t[m].0 != k);
            }
        }
        if 0 <= k && (exists|b: int| 0 <= b < s.len() && k < #[trigger] s[b].0) && (forall|b: int|
            0 <= b < s.len() ==> #[trigger] s[b].0 != k) {
            let b = choose|b: int| 0 <= b < s.len() && k < #[trigger] s[b].0;
            lemma_site_order_has_items(s, t, b);
            let m = choose|m: int| 0 <= m < n && t[m] == s[b];
            if m < n - 1 {
                assert(t[m].0 <= t[n - 1].0);
            }
            assert forall|q: int| 0 <= q < n implies #[trigger] t[q].0 != k by {
                assert(t[q] == s[t[q].1 as int]);
            }
            assert(empty_below(t, n, k));
        }
    }
}

} // verus!
