use vstd::prelude::*;

verus! {

/// Some file that the ledger was read from is among the paths that a change touched.
pub open spec fn touches_visited(visited: Seq<String>, changed: Seq<String>) -> bool {
    exists|i: int, j: int| 0 <= i < visited.len() && 0 <= j < changed.len() && #[trigger] visited[i]@ == #[trigger] changed[j]@
}

/// Whether a change of the files `changed` asks for the ledger to be read again: it does
/// when one of them is a file that the ledger was read from.
pub fn is_visited_file_updated(visited: &Vec<String>, changed: &Vec<String>) -> (r: bool)
    ensures
        r == touches_visited(visited@, changed@),
{
    let mut i: usize = 0;
    while i < visited.len()
        invariant
            i <= visited@.len(),
            forall|a: int, b: int| 0 <= a < i && 0 <= b < changed@.len() ==> #[trigger] visited@[a]@ != #[trigger] changed@[b]@,
        decreases visited@.len() - i,
    {
        let mut j: usize = 0;
        while j < changed.len()
            invariant
                i < visited@.len(),
                j <= changed@.len(),
                forall|b: int| 0 <= b < j ==> visited@[i as int]@ != #[trigger] changed@[b]@,
            decreases changed@.len() - j,
        {
            if visited[i] == changed[j] {
                return true;
            }
            j = j + 1;
        }
        i = i + 1;
    }
    false
}

} // verus!
