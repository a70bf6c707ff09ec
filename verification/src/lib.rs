pub mod analyze;
pub mod dates;
pub mod decoder;
pub mod entry;
pub mod filters;
pub mod errors;
pub mod history;
pub mod text;

use vstd::prelude::*;

verus! {

/// Renders a rank number for a leaderboard row: the top three ranks get a
/// medal icon, every other rank is shown as its decimal number.
pub fn format_rank_icon(rank: usize) -> (r: String)
    ensures
        rank == 1 ==> r@ == "\u{1F947}"@,
        rank == 2 ==> r@ == "\u{1F948}"@,
        rank == 3 ==> r@ == "\u{1F949}"@,
        rank > 3 || rank == 0 ==> r@ == crate::text::spec_u64_string(rank as nat),
{
    if rank == 1 {
        "\u{1F947}".to_owned()
    } else if rank == 2 {
        "\u{1F948}".to_owned()
    } else if rank == 3 {
        "\u{1F949}".to_owned()
    } else {
        crate::text::u64_to_string(rank as u64)
    }
}

} // verus!
