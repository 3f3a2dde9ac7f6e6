use vstd::prelude::*;

verus! {

/// The contents of each vector, in order.
pub open spec fn views(v: Seq<Vec<u8>>) -> Seq<Seq<u8>> {
    v.map_values(|x: Vec<u8>| x@)
}

/// Every way to split `avail` into pairs, each written after `cur` as a flat
/// list of pairs. In each pair the first team is the lowest-placed one left;
/// the ways come in the order of the second team's place in `avail`.
pub open spec fn pairings_with(cur: Seq<u8>, avail: Seq<u8>) -> Seq<Seq<u8>>
    decreases avail.len() + 1, 0nat,
{
    if avail.len() == 2 {
        seq![cur + avail]
    } else if avail.len() == 0 {
        seq![]
    } else {
        pairings_choosing(cur.push(avail[0]), avail.drop_first(), 0)
    }
}

/// The ways that pair the team just written at the end of `cur` with
/// `rest[i]`, then with `rest[i + 1]`, and so on to the end of `rest`.
pub open spec fn pairings_choosing(cur: Seq<u8>, rest: Seq<u8>, i: int) -> Seq<Seq<u8>>
    decreases rest.len() + 1, rest.len() - i,
{
    if i < 0 || i >= rest.len() {
        seq![]
    } else {
        pairings_with(cur.push(rest[i]), rest.remove(i)) + pairings_choosing(cur, rest, i + 1)
    }
}

/// The teams `0, 1, ..., n - 1`.
pub open spec fn teams(n: nat) -> Seq<u8> {
    Seq::new(n, |k: int| k as u8)
}

/// Every pairing of the teams `0..n`, as flat lists of pairs. An odd number
/// of teams has no pairing, and the result is then empty.
pub fn compute_pairings(n: u8) -> (r: Vec<Vec<u8>>)
    requires
        n >= 1,
    ensures
        views(r@) == pairings_with(seq![], teams(n as nat)),
{
    let mut res: Vec<Vec<u8>> = Vec::new();
    let mut available_teams: Vec<u8> = Vec::new();
    let mut k: u8 = 0;
    while k < n
        invariant
            k <= n,
            available_teams@ == teams(k as nat),
        decreases n - k,
    {
        available_teams.push(k);
        k = k + 1;
        assert(available_teams@ =~= teams(k as nat));
    }
    let current_solution: Vec<u8> = Vec::new();
    compute_pairings_rec(n, available_teams, current_solution, &mut res);
    assert(views(res@) =~= views(Seq::<Vec<u8>>::empty()) + pairings_with(seq![], teams(n as nat)));
    res
}

/// Appends to `res` every pairing of `available_teams`, each written after
/// `current_solution`.
pub fn compute_pairings_rec(
    n: u8,
    available_teams: Vec<u8>,
    current_solution: Vec<u8>,
    res: &mut Vec<Vec<u8>>,
)
    requires
        n >= 1,
        available_teams.len() == n,
    ensures
        views(final(res)@) == views(old(res)@) + pairings_with(current_solution@, available_teams@),
    decreases n,
{
    let mut available_teams = available_teams;
    let mut current_solution = current_solution;
    let ghost cur0 = current_solution@;
    let ghost avail0 = available_teams@;
    if n == 2 {
        current_solution.append(&mut available_teams);
        let ghost before = res@;
        res.push(current_solution);
        assert(views(res@) =~= views(before) + pairings_with(cur0, avail0));
    } else {
        let first = available_teams.remove(0);
        current_solution.push(first);
        assert(available_teams@ =~= avail0.drop_first());
        let ghost start = views(res@);
        let len = available_teams.len();
        let mut i: usize = 0;
        while i < len
            invariant
                len == available_teams.len(),
                len + 1 == n,
                n != 2,
                i <= len,
                available_teams@ == avail0.drop_first(),
                current_solution@ == cur0.push(avail0[0]),
                start == views(old(res)@),
                views(res@) + pairings_choosing(current_solution@, available_teams@, i as int)
                    == start + pairings_choosing(current_solution@, available_teams@, 0),
            decreases len - i,
        {
            let mut cs = current_solution.clone();
            let mut av = available_teams.clone();
            let second = av.remove(i);
            cs.push(second);
            let ghost before = views(res@);
            compute_pairings_rec(n - 2, av, cs, res);
            let ghost block = pairings_with(cs@, av@);
            let ghost later = pairings_choosing(current_solution@, available_teams@, i + 1);
            assert(before + (block + later) =~= views(res@) + later);
            i = i + 1;
        }
        assert(views(res@) + pairings_choosing(current_solution@, available_teams@, len as int) =~= views(res@));
    }
}

} // verus!
