//! Names of the PLATO tiles that analysis results are written to.
use vstd::prelude::*;

use crate::text::push_char;

verus! {

/// Where the tiles are written: a directory.
pub struct TileWriter {
    output_dir: String,
}

/// `s` with every '.' replaced by '_'.
pub open spec fn dots_to_underscores(s: Seq<char>) -> Seq<char> {
    s.map_values(|c: char| if c == '.' { '_' } else { c })
}

/// The file name of a tile: its type with dots as underscores, '_', the
/// graph id, ".json".
pub open spec fn tile_file(tile_type: Seq<char>, graph_id: Seq<char>) -> Seq<char> {
    dots_to_underscores(tile_type) + "_"@ + graph_id + ".json"@
}

impl TileWriter {
    /// The output directory.
    pub closed spec fn spec_output_dir(&self) -> Seq<char> {
        self.output_dir@
    }

    /// A writer for the directory `output_dir`.
    pub fn new(output_dir: String) -> (w: Self)
        ensures
            w.spec_output_dir() == output_dir@,
    {
        TileWriter { output_dir }
    }

    /// The output directory.
    pub fn output_dir(&self) -> (r: &String)
        ensures
            r@ == self.spec_output_dir(),
    {
        &self.output_dir
    }
}

/// The file name for a tile of type `tile_type` about graph `graph_id`.
pub fn tile_file_name(tile_type: &str, graph_id: &str) -> (r: String)
    ensures
        r@ == tile_file(tile_type@, graph_id@),
{
    let n = tile_type.unicode_len();
    let mut out = String::new();
    let mut i: usize = 0;
    while i < n
        invariant
            n == tile_type@.len(),
            i <= n,
            out@ == dots_to_underscores(tile_type@).take(i as int),
        decreases n - i,
    {
        let c = tile_type.get_char(i);
        if c == '.' {
            push_char(&mut out, '_');
        } else {
            push_char(&mut out, c);
        }
        assert(out@ =~= dots_to_underscores(tile_type@).take(i + 1));
        i = i + 1;
    }
    assert(dots_to_underscores(tile_type@).take(n as int) =~= dots_to_underscores(tile_type@));
    out.append("_");
    out.append(graph_id);
    out.append(".json");
    out
}

/// The file name of the combined report about graph `graph_id`.
pub fn combined_file_name(graph_id: &str) -> (r: String)
    ensures
        r@ == "combined_"@ + graph_id@ + ".json"@,
{
    let mut out = String::new();
    out.append("combined_");
    out.append(graph_id);
    out.append(".json");
    out
}

/// The tile type of a specialist's report: "fleet-spread." and its id.
pub fn specialist_tile_type(specialist_id: &str) -> (r: String)
    ensures
        r@ == "fleet-spread."@ + specialist_id@,
{
    let mut out = String::new();
    out.append("fleet-spread.");
    out.append(specialist_id);
    out
}

} // verus!
