use vstd::prelude::*;

use crate::error::FatError;
use crate::image::{fat_entry, max_clusters, Image};

verus! {

/// `v` names a cluster of the table, so a chain goes on through it.
pub open spec fn leads_on(b: Seq<u8>, v: int) -> bool {
    2 <= v < max_clusters(b)
}

/// `p` put in front of the chain `o`, if there is one.
pub open spec fn prepend(p: Seq<u16>, o: Option<Seq<u16>>) -> Option<Seq<u16>> {
    match o {
        Some(s) => Some(p + s),
        None => None,
    }
}

/// The clusters of the chain from `c`, following the table of `b` until a value that names
/// no cluster, or `None` where that takes more than `fuel` clusters.
pub open spec fn walk(b: Seq<u8>, c: int, fuel: nat) -> Option<Seq<u16>>
    decreases fuel,
{
    if !leads_on(b, c) {
        Some(Seq::empty())
    } else if fuel == 0 {
        None
    } else {
        prepend(seq![c as u16], walk(b, fat_entry(b, c) as int, (fuel - 1) as nat))
    }
}

/// The clusters of the chain that starts at `start`, in order. A chain longer than the
/// table has clusters must run in a cycle, and is refused.
pub fn cluster_chain(image: &Image, start: u16) -> (r: Result<Vec<u16>, FatError>)
    requires
        image.wf(),
    ensures
        r is Ok <==> walk(image@, start as int, max_clusters(image@) as nat) is Some,
        r is Ok ==> r->Ok_0@ == walk(image@, start as int, max_clusters(image@) as nat)->0,
        r is Err ==> r->Err_0 == FatError::CorruptChain,
{
    let ghost b = image@;
    let ghost total = max_clusters(b) as nat;
    let max = image.max_clusters();
    let mut out: Vec<u16> = Vec::new();
    let mut cur: u16 = start;
    let mut steps: u16 = 0;
    while 2 <= cur && cur < max
        invariant
            image.wf(),
            b == image@,
            max == max_clusters(b),
            total == max as nat,
            steps <= max,
            walk(b, start as int, total) == prepend(out@, walk(b, cur as int, (total - steps) as nat)),
        decreases max - steps,
    {
        if steps == max {
            return Err(FatError::CorruptChain);
        }
        let next = image.entry_at(cur);
        proof {
            let f = (total - steps) as nat;
            assert(walk(b, cur as int, f) == prepend(seq![cur], walk(b, next as int, (f - 1) as nat)));
            match walk(b, next as int, (f - 1) as nat) {
                Some(s) => {
                    assert(out@ + (seq![cur] + s) =~= out@.push(cur) + s);
                },
                None => {},
            }
        }
        out.push(cur);
        cur = next;
        steps = steps + 1;
    }
    assert(out@ + Seq::<u16>::empty() =~= out@);
    Ok(out)
}

} // verus!
