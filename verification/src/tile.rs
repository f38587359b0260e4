use std::collections::BTreeSet;
use vstd::prelude::*;
use vstd::std_specs::btree::spec_btree_keys_iter;
use vstd::std_specs::iter::IteratorSpec;

use crate::text::{
    chars_of, format_zero_padded, integer_literal, isize_parse_error, lemma_integer_text_reads_back,
    parse_isize, push_all, string_from_chars, trim, trimmed, zero_padded,
};

verus! {

/// Number of tiles along each side of a chunk.
pub const CHUNKWIDTH: usize = 10;

/// A square area of the map, indexed by its integer grid coordinates.
#[derive(Clone, Copy, Debug, PartialEq, Eq)]
pub struct Tile {
    pub coord: (isize, isize),
}

/// A larger square area made of `CHUNKWIDTH` x `CHUNKWIDTH` tiles.
#[derive(Clone, Copy, Debug, PartialEq, Eq)]
pub struct Chunk {
    pub coord: (isize, isize),
}

/// A set of tiles, each given by its grid coordinates.
pub type Tiles = BTreeSet<(isize, isize)>;

/// A set of chunks, each given by its grid coordinates.
pub type Chunks = BTreeSet<(isize, isize)>;

/// Floor division (rounding towards negative infinity).
pub open spec fn floor_div(x: int, d: int) -> int {
    x / d
}

/// The coordinates of the chunk that holds the tile at `c`.
pub open spec fn spec_chunk_coord(c: (isize, isize)) -> (isize, isize) {
    (
        floor_div(c.0 as int, CHUNKWIDTH as int) as isize,
        floor_div(c.1 as int, CHUNKWIDTH as int) as isize,
    )
}

/// Whether the tile at `t` lies in the chunk at `c`.
pub open spec fn chunk_holds(c: (isize, isize), t: (isize, isize)) -> bool {
    spec_chunk_coord(t) == c
}

/// All grid cells `(x, y)` with `xmin <= x < xmax` and `ymin <= y < ymax`.
pub open spec fn cells(xmin: int, ymin: int, xmax: int, ymax: int) -> Set<(isize, isize)> {
    Set::new(|c: (isize, isize)| xmin <= c.0 < xmax && ymin <= c.1 < ymax)
}

/// Whether a chunk's tiles have coordinates that fit in `isize`.
pub open spec fn chunk_in_range(c: (isize, isize)) -> bool {
    &&& isize::MIN <= CHUNKWIDTH * c.0
    &&& CHUNKWIDTH * c.0 + CHUNKWIDTH <= isize::MAX
    &&& isize::MIN <= CHUNKWIDTH * c.1
    &&& CHUNKWIDTH * c.1 + CHUNKWIDTH <= isize::MAX
}

fn floor_div_chunk(x: isize) -> (r: isize)
    ensures
        r as int == floor_div(x as int, CHUNKWIDTH as int),
{
    let w: isize = 10;
    let q = x / w;
    let r = x % w;
    if r < 0 {
        q - 1
    } else {
        q
    }
}

/// The grid coordinates in `s`, listed once each.
pub fn coords_of(s: &BTreeSet<(isize, isize)>) -> (v: Vec<(isize, isize)>)
    ensures
        v@.to_set() == s@,
        v@.no_duplicates(),
{
    let mut v: Vec<(isize, isize)> = Vec::new();
    for t in it: s.iter()
        invariant
            it.seq() == spec_btree_keys_iter(s).remaining(),
            v@ == it.seq().take(it.index() as int).unref(),
    {
        v.push(*t);
        proof {
            assert(it.seq().take(it.index() + 1).unref() == it.seq().take(
                it.index() as int,
            ).unref().push(*it.seq()[it.index() as int]));
        }
    }
    proof {
        let all = spec_btree_keys_iter(s).remaining();
        assert(all.take(all.len() as int) == all);
    }
    v
}

/// The set of grid cells `(x, y)` with `xmin <= x < xmax` and `ymin <= y < ymax`:
/// the cells a bounding box covers once its corners are snapped to the grid.
pub fn grid_cells(xmin: isize, ymin: isize, xmax: isize, ymax: isize) -> (r: BTreeSet<(isize, isize)>)
    ensures
        r@ == cells(xmin as int, ymin as int, xmax as int, ymax as int),
{
    let mut ret: BTreeSet<(isize, isize)> = BTreeSet::new();
    let mut x = xmin;
    while x < xmax
        invariant
            xmin <= x,
            x <= xmax || x == xmin,
            ret@ == cells(xmin as int, ymin as int, x as int, ymax as int),
        decreases xmax - x,
    {
        let mut y = ymin;
        while y < ymax
            invariant
                xmin <= x < xmax,
                ymin <= y,
                y <= ymax || y == ymin,
                ret@ == cells(xmin as int, ymin as int, x as int, ymax as int).union(
                    Set::new(|c: (isize, isize)| c.0 == x && ymin <= c.1 < y),
                ),
            decreases ymax - y,
        {
            ret.insert((x, y));
            y = y + 1;
            proof {
                assert(ret@ =~= cells(xmin as int, ymin as int, x as int, ymax as int).union(
                    Set::new(|c: (isize, isize)| c.0 == x && ymin <= c.1 < y),
                ));
            }
        }
        x = x + 1;
        proof {
            assert(ret@ =~= cells(xmin as int, ymin as int, x as int, ymax as int));
        }
    }
    proof {
        assert(ret@ =~= cells(xmin as int, ymin as int, xmax as int, ymax as int));
    }
    ret
}

impl Tile {
    /// Coordinates of the chunk that holds this tile.
    pub fn chunk_coord(&self) -> (r: (isize, isize))
        ensures
            r == spec_chunk_coord(self.coord),
    {
        (floor_div_chunk(self.coord.0), floor_div_chunk(self.coord.1))
    }

    /// The chunk that holds this tile.
    /// The file name stem of this tile, such as `005-043`.
    pub fn basename(&self) -> (r: String)
        ensures
            r@ == tile_basename(self.coord),
    {
        let mut v = format_zero_padded(self.coord.0 as i64, 3);
        v.push('-');
        let y = format_zero_padded(self.coord.1 as i64, 3);
        push_all(&mut v, &y);
        string_from_chars(&v)
    }

    /// The text `x,y` that `Display` writes for this tile.
    pub fn to_string(&self) -> (r: String)
        ensures
            r@ == coord_text(self.coord),
    {
        coord_string(self.coord)
    }

    /// Parses `x,y`, as `FromStr` does.
    pub fn from_str(s: &str) -> (r: Result<Tile, String>)
        ensures
            match r {
                Ok(t) => coord_parse_ok(s@, t.coord),
                Err(e) => (forall|c: (isize, isize)| !coord_parse_ok(s@, c)) && e@
                    == coord_parse_error(s@),
            },
    {
        match parse_coord(s) {
            Ok(c) => Ok(Tile { coord: c }),
            Err(e) => Err(e),
        }
    }

    pub fn chunk(&self) -> (r: Chunk)
        ensures
            r.coord == spec_chunk_coord(self.coord),
    {
        let coord = self.chunk_coord();
        Chunk::from_coord(&coord)
    }
}

impl Chunk {
    pub fn from_coord(coord: &(isize, isize)) -> (r: Self)
        ensures
            r.coord == *coord,
    {
        Self { coord: *coord }
    }

    /// The file name stem of this chunk, such as `E005-N043` or `W012-S003`.
    pub fn basename(&self) -> (r: String)
        requires
            self.coord.0 != isize::MIN,
            self.coord.1 != isize::MIN,
        ensures
            r@ == chunk_basename(self.coord),
    {
        let mut v: Vec<char> = Vec::new();
        let x = if self.coord.0 < 0 {
            v.push('W');
            format_zero_padded(-(self.coord.0 as i64), 3)
        } else {
            v.push('E');
            format_zero_padded(self.coord.0 as i64, 3)
        };
        push_all(&mut v, &x);
        v.push('-');
        let y = if self.coord.1 < 0 {
            v.push('S');
            format_zero_padded(-(self.coord.1 as i64), 3)
        } else {
            v.push('N');
            format_zero_padded(self.coord.1 as i64, 3)
        };
        push_all(&mut v, &y);
        proof {
            assert(v@ =~= chunk_basename(self.coord));
        }
        string_from_chars(&v)
    }

    /// The text `x,y` that `Display` writes for this chunk.
    pub fn to_string(&self) -> (r: String)
        ensures
            r@ == coord_text(self.coord),
    {
        coord_string(self.coord)
    }

    /// Parses `x,y`, as `FromStr` does.
    pub fn from_str(s: &str) -> (r: Result<Chunk, String>)
        ensures
            match r {
                Ok(t) => coord_parse_ok(s@, t.coord),
                Err(e) => (forall|c: (isize, isize)| !coord_parse_ok(s@, c)) && e@
                    == coord_parse_error(s@),
            },
    {
        match parse_coord(s) {
            Ok(c) => Ok(Chunk { coord: c }),
            Err(e) => Err(e),
        }
    }

    /// Whether `tile` lies in this chunk.
    pub fn contains(&self, tile: &Tile) -> (r: bool)
        ensures
            r == chunk_holds(self.coord, tile.coord),
    {
        let c = tile.chunk_coord();
        c.0 == self.coord.0 && c.1 == self.coord.1
    }

    /// All tiles of this chunk.
    pub fn tiles(&self) -> (r: Tiles)
        requires
            chunk_in_range(self.coord),
        ensures
            r@ == cells(
                CHUNKWIDTH * self.coord.0,
                CHUNKWIDTH * self.coord.1,
                CHUNKWIDTH * self.coord.0 + CHUNKWIDTH,
                CHUNKWIDTH * self.coord.1 + CHUNKWIDTH,
            ),
            forall|t: (isize, isize)| r@.contains(t) <==> chunk_holds(self.coord, t),
    {
        let w: isize = 10;
        let x0 = w * self.coord.0;
        let y0 = w * self.coord.1;
        let r = grid_cells(x0, y0, x0 + w, y0 + w);
        proof {
            assert forall|t: (isize, isize)| r@.contains(t) <==> chunk_holds(self.coord, t) by {
                let a = t.0 as int;
                let b = t.1 as int;
                assert(r@.contains(t) <==> (10 * self.coord.0 <= a < 10 * self.coord.0 + 10 && 10
                    * self.coord.1 <= b < 10 * self.coord.1 + 10));
                assert((10 * self.coord.0 <= a < 10 * self.coord.0 + 10) <==> (a / 10
                    == self.coord.0)) by (nonlinear_arith);
                assert((10 * self.coord.1 <= b < 10 * self.coord.1 + 10) <==> (b / 10
                    == self.coord.1)) by (nonlinear_arith);
            }
        }
        r
    }
}

/// The text `x,y` for grid coordinates, as the `Display` impls of `Tile` and `Chunk` write it.
pub open spec fn coord_text(c: (isize, isize)) -> Seq<char> {
    zero_padded(c.0 as int, 0) + seq![','] + zero_padded(c.1 as int, 0)
}

/// The file name stem of a tile: both coordinates zero-padded to three characters,
/// separated by `-`.
pub open spec fn tile_basename(c: (isize, isize)) -> Seq<char> {
    zero_padded(c.0 as int, 3) + seq!['-'] + zero_padded(c.1 as int, 3)
}

/// One coordinate of a chunk file name: the letter for the sign, then the magnitude
/// zero-padded to three characters.
pub open spec fn hemisphere_part(v: int, negative: char, positive: char) -> Seq<char> {
    if v < 0 {
        seq![negative] + zero_padded(-v, 3)
    } else {
        seq![positive] + zero_padded(v, 3)
    }
}

/// The file name stem of a chunk, such as `E005-N043` or `W012-S003`.
pub open spec fn chunk_basename(c: (isize, isize)) -> Seq<char> {
    hemisphere_part(c.0 as int, 'W', 'E') + seq!['-'] + hemisphere_part(c.1 as int, 'S', 'N')
}

/// The result of parsing `x,y` into grid coordinates: the text is split at its first
/// comma and each side, trimmed, must be an integer literal that fits in `isize`.
pub open spec fn coord_parse_ok(s: Seq<char>, c: (isize, isize)) -> bool {
    exists|k: int|
        0 <= k < s.len() && s[k] == ',' && !s.take(k).contains(',') && integer_literal(
            trimmed(s.take(k)),
        ) == Some(c.0 as int) && integer_literal(trimmed(s.skip(k + 1))) == Some(c.1 as int)
}

/// Whether `k` is the position of the first comma of `s`.
pub open spec fn is_first_comma(s: Seq<char>, k: int) -> bool {
    0 <= k < s.len() && s[k] == ',' && !s.take(k).contains(',')
}

/// Whether `t` is an integer literal whose value fits in `isize`.
pub open spec fn parses_as_isize(t: Seq<char>) -> bool {
    integer_literal(t) matches Some(n) && isize::MIN <= n <= isize::MAX
}

/// The message of a failed parse of `x,y`: `missing comma` when the text has no comma;
/// else the message of `str::parse` on the trimmed text before the first comma when that
/// one fails, and otherwise on the trimmed text after it.
pub open spec fn coord_parse_error(s: Seq<char>) -> Seq<char> {
    if !s.contains(',') {
        "missing comma"@
    } else {
        let k = choose|k: int| is_first_comma(s, k);
        let left = trimmed(s.take(k));
        if !parses_as_isize(left) {
            isize_parse_error(left)
        } else {
            isize_parse_error(trimmed(s.skip(k + 1)))
        }
    }
}

proof fn lemma_first_comma_unique(s: Seq<char>, k: int, j: int)
    requires
        is_first_comma(s, k),
        is_first_comma(s, j),
    ensures
        k == j,
{
    if j < k {
        assert(s.take(k)[j] == ',');
    } else if k < j {
        assert(s.take(j)[k] == ',');
    }
}

fn coord_string(c: (isize, isize)) -> (r: String)
    ensures
        r@ == coord_text(c),
{
    let mut v = format_zero_padded(c.0 as i64, 0);
    v.push(',');
    let y = format_zero_padded(c.1 as i64, 0);
    push_all(&mut v, &y);
    string_from_chars(&v)
}

/// Position of the first `sep` in `v`, if any.
pub fn find_char(v: &Vec<char>, sep: char) -> (r: Option<usize>)
    ensures
        match r {
            Some(k) => k < v@.len() && v@[k as int] == sep && !v@.take(k as int).contains(sep),
            None => !v@.contains(sep),
        },
{
    let mut i: usize = 0;
    while i < v.len()
        invariant
            i <= v.len(),
            !v@.take(i as int).contains(sep),
        decreases v.len() - i,
    {
        if v[i] == sep {
            return Some(i);
        }
        proof {
            assert(v@.take(i + 1) =~= v@.take(i as int).push(v@[i as int]));
        }
        i = i + 1;
    }
    proof {
        assert(v@.take(v@.len() as int) =~= v@);
    }
    None
}

fn slice_chars(v: &Vec<char>, from: usize, to: usize) -> (r: Vec<char>)
    requires
        from <= to <= v@.len(),
    ensures
        r@ == v@.subrange(from as int, to as int),
{
    let mut r: Vec<char> = Vec::new();
    let mut k = from;
    while k < to
        invariant
            from <= k <= to <= v@.len(),
            r@ == v@.subrange(from as int, k as int),
        decreases to - k,
    {
        r.push(v[k]);
        proof {
            assert(v@.subrange(from as int, k + 1) =~= v@.subrange(from as int, k as int).push(
                v@[k as int],
            ));
        }
        k = k + 1;
    }
    r
}

fn parse_trimmed(v: &Vec<char>) -> (r: Result<isize, String>)
    ensures
        match r {
            Ok(x) => integer_literal(trimmed(v@)) == Some(x as int),
            Err(e) => !parses_as_isize(trimmed(v@)) && e@ == isize_parse_error(trimmed(v@)),
        },
{
    let t = trim(v);
    let s = string_from_chars(&t);
    parse_isize(s.as_str())
}

/// Parses `x,y` into grid coordinates, as the `FromStr` impls of `Tile` and `Chunk` do.
pub fn parse_coord(s: &str) -> (r: Result<(isize, isize), String>)
    ensures
        match r {
            Ok(c) => coord_parse_ok(s@, c),
            Err(e) => (forall|c: (isize, isize)| !coord_parse_ok(s@, c)) && e@ == coord_parse_error(
                s@,
            ),
        },
{
    let chars = chars_of(s);
    let found = find_char(&chars, ',');
    let k = match found {
        Some(k) => k,
        None => {
            proof {
                assert forall|c: (isize, isize)| !coord_parse_ok(s@, c) by {
                    if coord_parse_ok(s@, c) {
                        let k = choose|k: int|
                            0 <= k < s@.len() && s@[k] == ',' && !s@.take(k).contains(',')
                                && integer_literal(trimmed(s@.take(k))) == Some(c.0 as int)
                                && integer_literal(trimmed(s@.skip(k + 1))) == Some(c.1 as int);
                        assert(s@.contains(','));
                    }
                }
            }
            return Err("missing comma".to_owned());
        },
    };
    assert(k < chars.len());
    let left = slice_chars(&chars, 0, k);
    let right = slice_chars(&chars, k + 1, chars.len());
    proof {
        assert(left@ =~= s@.take(k as int));
        assert(right@ =~= s@.skip(k + 1));
        assert(is_first_comma(s@, k as int));
        assert(s@.contains(','));
        let f = choose|f: int| is_first_comma(s@, f);
        lemma_first_comma_unique(s@, k as int, f);
    }
    let x = match parse_trimmed(&left) {
        Ok(x) => x,
        Err(e) => {
            proof {
                assert forall|c: (isize, isize)| !coord_parse_ok(s@, c) by {
                    if coord_parse_ok(s@, c) {
                        let j = choose|j: int|
                            0 <= j < s@.len() && s@[j] == ',' && !s@.take(j).contains(',')
                                && integer_literal(trimmed(s@.take(j))) == Some(c.0 as int)
                                && integer_literal(trimmed(s@.skip(j + 1))) == Some(c.1 as int);
                        lemma_first_comma_unique(s@, k as int, j);
                    }
                }
            }
            return Err(e);
        },
    };
    let y = match parse_trimmed(&right) {
        Ok(y) => y,
        Err(e) => {
            proof {
                assert forall|c: (isize, isize)| !coord_parse_ok(s@, c) by {
                    if coord_parse_ok(s@, c) {
                        let j = choose|j: int|
                            0 <= j < s@.len() && s@[j] == ',' && !s@.take(j).contains(',')
                                && integer_literal(trimmed(s@.take(j))) == Some(c.0 as int)
                                && integer_literal(trimmed(s@.skip(j + 1))) == Some(c.1 as int);
                        lemma_first_comma_unique(s@, k as int, j);
                    }
                }
            }
            return Err(e);
        },
    };
    Ok((x, y))
}

/// Coordinates of the chunk that holds the tile `b`.
pub fn chunk_coord(b: &Tile) -> (r: (isize, isize))
    ensures
        r == spec_chunk_coord(b.coord),
{
    b.chunk_coord()
}

} // verus!

verus! {

/// The chunks that hold the given tiles.
pub open spec fn spec_chunks(tiles: Set<(isize, isize)>) -> Set<(isize, isize)> {
    tiles.map(|t: (isize, isize)| spec_chunk_coord(t))
}

/// Whether `c` lies within the smallest grid rectangle that covers every tile of `tiles`.
pub open spec fn in_bounding_rectangle(tiles: Set<(isize, isize)>, c: (isize, isize)) -> bool {
    &&& exists|a: (isize, isize)| tiles.contains(a) && a.0 <= c.0
    &&& exists|b: (isize, isize)| tiles.contains(b) && c.0 <= b.0
    &&& exists|a: (isize, isize)| tiles.contains(a) && a.1 <= c.1
    &&& exists|b: (isize, isize)| tiles.contains(b) && c.1 <= b.1
}

/// The chunks that hold the given tiles.
pub fn chunks(tiles: &Tiles) -> (r: Chunks)
    ensures
        r@ == spec_chunks(tiles@),
{
    let v = coords_of(tiles);
    let mut ret: Chunks = BTreeSet::new();
    let mut i: usize = 0;
    while i < v.len()
        invariant
            i <= v@.len(),
            v@.to_set() == tiles@,
            forall|c: (isize, isize)|
                ret@.contains(c) <==> exists|j: int| 0 <= j < i && spec_chunk_coord(v@[j]) == c,
        decreases v.len() - i,
    {
        let t = Tile { coord: v[i] };
        let cc = t.chunk_coord();
        ret.insert(cc);
        proof {
            assert forall|c: (isize, isize)|
                ret@.contains(c) <==> exists|j: int| 0 <= j < i + 1 && spec_chunk_coord(v@[j]) == c by {
                if c == cc {
                    assert(spec_chunk_coord(v@[i as int]) == c);
                }
            }
        }
        i = i + 1;
    }
    proof {
        assert forall|c: (isize, isize)| ret@.contains(c) <==> spec_chunks(tiles@).contains(c) by {
            if ret@.contains(c) {
                let j = choose|j: int| 0 <= j < v@.len() && spec_chunk_coord(v@[j]) == c;
                assert(v@.contains(v@[j]));
                assert(tiles@.contains(v@[j]));
            }
            if spec_chunks(tiles@).contains(c) {
                let t = choose|t: (isize, isize)| tiles@.contains(t) && spec_chunk_coord(t) == c;
                assert(v@.to_set().contains(t));
                let j = choose|j: int| 0 <= j < v@.len() && v@[j] == t;
            }
        }
        assert(ret@ =~= spec_chunks(tiles@));
    }
    ret
}

/// The tiles of `tiles` that lie in `chunk`.
pub fn tiles_in_chunk(tiles: &Tiles, chunk: &Chunk) -> (r: Tiles)
    ensures
        r@ == tiles@.filter(|t: (isize, isize)| chunk_holds(chunk.coord, t)),
{
    let v = coords_of(tiles);
    let mut ret: Tiles = BTreeSet::new();
    let mut i: usize = 0;
    while i < v.len()
        invariant
            i <= v@.len(),
            v@.to_set() == tiles@,
            forall|c: (isize, isize)|
                ret@.contains(c) <==> chunk_holds(chunk.coord, c) && exists|j: int|
                    0 <= j < i && v@[j] == c,
        decreases v.len() - i,
    {
        let t = Tile { coord: v[i] };
        if chunk.contains(&t) {
            ret.insert(v[i]);
        }
        proof {
            assert forall|c: (isize, isize)|
                ret@.contains(c) <==> chunk_holds(chunk.coord, c) && exists|j: int|
                    0 <= j < i + 1 && v@[j] == c by {
                if c == v@[i as int] {
                    assert(v@[i as int] == c);
                }
            }
        }
        i = i + 1;
    }
    proof {
        let f = |t: (isize, isize)| chunk_holds(chunk.coord, t);
        assert forall|c: (isize, isize)| ret@.contains(c) <==> tiles@.filter(f).contains(c) by {
            if ret@.contains(c) {
                let j = choose|j: int| 0 <= j < v@.len() && v@[j] == c;
                assert(v@.contains(c));
            }
            if tiles@.filter(f).contains(c) {
                assert(v@.to_set().contains(c));
                let j = choose|j: int| 0 <= j < v@.len() && v@[j] == c;
            }
        }
        assert(ret@ =~= tiles@.filter(f));
    }
    ret
}

/// Every cell `(x, y)` with `xmin <= x <= xmax` and `ymin <= y <= ymax`.
fn fill_rectangle(xmin: isize, ymin: isize, xmax: isize, ymax: isize) -> (r: BTreeSet<(isize, isize)>)
    ensures
        r@ == cells(xmin as int, ymin as int, xmax as int + 1, ymax as int + 1),
{
    let mut ret: BTreeSet<(isize, isize)> = BTreeSet::new();
    let mut x: i128 = xmin as i128;
    while x <= xmax as i128
        invariant
            xmin <= x,
            x <= xmax + 1 || x == xmin,
            ret@ == cells(xmin as int, ymin as int, x as int, ymax as int + 1),
        decreases xmax + 1 - x,
    {
        let mut y: i128 = ymin as i128;
        while y <= ymax as i128
            invariant
                xmin <= x <= xmax,
                ymin <= y,
                y <= ymax + 1 || y == ymin,
                ret@ == cells(xmin as int, ymin as int, x as int, ymax as int + 1).union(
                    Set::new(|c: (isize, isize)| c.0 == x && ymin <= c.1 < y),
                ),
            decreases ymax + 1 - y,
        {
            ret.insert((x as isize, y as isize));
            y = y + 1;
            proof {
                assert(ret@ =~= cells(xmin as int, ymin as int, x as int, ymax as int + 1).union(
                    Set::new(|c: (isize, isize)| c.0 == x && ymin <= c.1 < y),
                ));
            }
        }
        x = x + 1;
        proof {
            assert(ret@ =~= cells(xmin as int, ymin as int, x as int, ymax as int + 1));
        }
    }
    proof {
        assert(ret@ =~= cells(xmin as int, ymin as int, xmax as int + 1, ymax as int + 1));
    }
    ret
}

/// Every tile of the smallest grid rectangle that covers all of `tiles`; empty when
/// `tiles` is empty.
pub fn bounding_tiles(tiles: &Tiles) -> (r: Tiles)
    ensures
        forall|c: (isize, isize)| r@.contains(c) <==> in_bounding_rectangle(tiles@, c),
{
    let v = coords_of(tiles);
    if v.len() == 0 {
        proof {
            assert forall|c: (isize, isize)| !in_bounding_rectangle(tiles@, c) by {
                if in_bounding_rectangle(tiles@, c) {
                    let a = choose|a: (isize, isize)| tiles@.contains(a) && a.0 <= c.0;
                    assert(v@.to_set().contains(a));
                }
            }
        }
        return BTreeSet::new();
    }
    let mut min_x = v[0].0;
    let mut max_x = v[0].0;
    let mut min_y = v[0].1;
    let mut max_y = v[0].1;
    let mut i: usize = 1;
    proof {
        assert(v@.contains(v@[0]));
        assert(tiles@.contains(v@[0]));
    }
    while i < v.len()
        invariant
            1 <= i <= v@.len(),
            v@.to_set() == tiles@,
            exists|a: (isize, isize)| tiles@.contains(a) && a.0 == min_x,
            exists|a: (isize, isize)| tiles@.contains(a) && a.0 == max_x,
            exists|a: (isize, isize)| tiles@.contains(a) && a.1 == min_y,
            exists|a: (isize, isize)| tiles@.contains(a) && a.1 == max_y,
            forall|j: int|
                0 <= j < i ==> min_x <= #[trigger] v@[j].0 <= max_x && min_y <= v@[j].1 <= max_y,
        decreases v.len() - i,
    {
        let (x, y) = v[i];
        proof {
            assert(v@.contains(v@[i as int]));
            assert(tiles@.contains(v@[i as int]));
        }
        if x < min_x {
            min_x = x;
        }
        if x > max_x {
            max_x = x;
        }
        if y < min_y {
            min_y = y;
        }
        if y > max_y {
            max_y = y;
        }
        i = i + 1;
    }
    proof {
        assert forall|a: (isize, isize)| tiles@.contains(a) implies min_x <= a.0 <= max_x && min_y
            <= a.1 <= max_y by {
            assert(v@.to_set().contains(a));
            let j = choose|j: int| 0 <= j < v@.len() && v@[j] == a;
            assert(min_x <= v@[j].0 <= max_x);
        }
    }
    let ret = fill_rectangle(min_x, min_y, max_x, max_y);
    proof {
        assert forall|c: (isize, isize)| ret@.contains(c) <==> in_bounding_rectangle(tiles@, c) by {
            if in_bounding_rectangle(tiles@, c) {
                let a = choose|a: (isize, isize)| tiles@.contains(a) && a.0 <= c.0;
                let b = choose|b: (isize, isize)| tiles@.contains(b) && c.0 <= b.0;
                let a1 = choose|a: (isize, isize)| tiles@.contains(a) && a.1 <= c.1;
                let b1 = choose|b: (isize, isize)| tiles@.contains(b) && c.1 <= b.1;
            }
        }
    }
    ret
}

/// The tile shifted by `(dx, dy)` from `t`.
pub open spec fn shifted(t: (isize, isize), dx: int, dy: int) -> (isize, isize) {
    ((t.0 + dx) as isize, (t.1 + dy) as isize)
}

/// Whether every tile around `t` has coordinates that fit in `isize`.
pub open spec fn has_all_neighbors(t: (isize, isize)) -> bool {
    isize::MIN < t.0 < isize::MAX && isize::MIN < t.1 < isize::MAX
}

fn tile(t: &Tile, dx: isize, dy: isize) -> (r: Tile)
    requires
        isize::MIN <= t.coord.0 + dx <= isize::MAX,
        isize::MIN <= t.coord.1 + dy <= isize::MAX,
    ensures
        r.coord == shifted(t.coord, dx as int, dy as int),
{
    Tile { coord: (t.coord.0 + dx, t.coord.1 + dy) }
}

/// The eight tiles around `middle`, row by row from the top-left.
pub fn neighbors(middle: &Tile) -> (r: [Tile; 8])
    requires
        has_all_neighbors(middle.coord),
    ensures
        r@.map_values(|t: Tile| t.coord) == seq![
            shifted(middle.coord, -1, -1),
            shifted(middle.coord, 0, -1),
            shifted(middle.coord, 1, -1),
            shifted(middle.coord, -1, 0),
            shifted(middle.coord, 1, 0),
            shifted(middle.coord, -1, 1),
            shifted(middle.coord, 0, 1),
            shifted(middle.coord, 1, 1),
        ],
{
    let step: isize = 1;
    let r = [
        tile(middle, -step, -step),
        tile(middle, 0, -step),
        tile(middle, step, -step),
        tile(middle, -step, 0),
        tile(middle, step, 0),
        tile(middle, -step, step),
        tile(middle, 0, step),
        tile(middle, step, step),
    ];
    proof {
        assert(r@.map_values(|t: Tile| t.coord) =~= seq![
            shifted(middle.coord, -1, -1),
            shifted(middle.coord, 0, -1),
            shifted(middle.coord, 1, -1),
            shifted(middle.coord, -1, 0),
            shifted(middle.coord, 1, 0),
            shifted(middle.coord, -1, 1),
            shifted(middle.coord, 0, 1),
            shifted(middle.coord, 1, 1),
        ]);
    }
    r
}

/// Every tile lies in the chunk that `Tile::chunk` gives for it, and among the tiles that
/// `Chunk::tiles` lists for that chunk.
pub proof fn law_tile_in_own_chunk(t: Tile)
    requires
        chunk_in_range(spec_chunk_coord(t.coord)),
    ensures
        chunk_holds(spec_chunk_coord(t.coord), t.coord),
        ({
            let c = spec_chunk_coord(t.coord);
            cells(
                CHUNKWIDTH * c.0,
                CHUNKWIDTH * c.1,
                CHUNKWIDTH * c.0 + CHUNKWIDTH,
                CHUNKWIDTH * c.1 + CHUNKWIDTH,
            ).contains(t.coord)
        }),
{
    let a = t.coord.0 as int;
    let b = t.coord.1 as int;
    assert(10 * (a / 10) <= a < 10 * (a / 10) + 10) by (nonlinear_arith);
    assert(10 * (b / 10) <= b < 10 * (b / 10) + 10) by (nonlinear_arith);
}

/// Picking the tiles of a chunk out of a set gives the same tiles as intersecting the
/// set with all the tiles of that chunk.
pub proof fn law_tiles_in_chunk_is_intersection(tiles: Set<(isize, isize)>, c: (isize, isize))
    requires
        chunk_in_range(c),
    ensures
        tiles.filter(|t: (isize, isize)| chunk_holds(c, t)) == cells(
            CHUNKWIDTH * c.0,
            CHUNKWIDTH * c.1,
            CHUNKWIDTH * c.0 + CHUNKWIDTH,
            CHUNKWIDTH * c.1 + CHUNKWIDTH,
        ).intersect(tiles),
{
    let cs = cells(
        CHUNKWIDTH * c.0,
        CHUNKWIDTH * c.1,
        CHUNKWIDTH * c.0 + CHUNKWIDTH,
        CHUNKWIDTH * c.1 + CHUNKWIDTH,
    );
    assert forall|t: (isize, isize)| cs.contains(t) <==> chunk_holds(c, t) by {
        let a = t.0 as int;
        let b = t.1 as int;
        assert((10 * c.0 <= a < 10 * c.0 + 10) <==> (a / 10 == c.0)) by (nonlinear_arith);
        assert((10 * c.1 <= b < 10 * c.1 + 10) <==> (b / 10 == c.1)) by (nonlinear_arith);
    }
    assert(tiles.filter(|t: (isize, isize)| chunk_holds(c, t)) =~= cs.intersect(tiles));
}

/// The tiles of a set all lie within its bounding rectangle.
pub proof fn law_bounding_rectangle_covers(tiles: Set<(isize, isize)>, t: (isize, isize))
    requires
        tiles.contains(t),
    ensures
        in_bounding_rectangle(tiles, t),
{
}

/// The text `x,y` that a tile or chunk is written as reads back as the same coordinates,
/// and as no others: `from_str` of `to_string` gives the same tile or chunk.
pub proof fn law_coord_text_round_trip(c: (isize, isize))
    ensures
        coord_parse_ok(coord_text(c), c),
        forall|d: (isize, isize)| coord_parse_ok(coord_text(c), d) ==> d == c,
{
    let x = zero_padded(c.0 as int, 0);
    let y = zero_padded(c.1 as int, 0);
    let s = coord_text(c);
    let k = x.len() as int;
    lemma_integer_text_reads_back(c.0 as int);
    lemma_integer_text_reads_back(c.1 as int);
    assert(s.take(k) =~= x);
    assert(s.skip(k + 1) =~= y);
    assert(s[k] == ',');
    assert(coord_parse_ok(s, c));
    assert forall|d: (isize, isize)| coord_parse_ok(s, d) implies d == c by {
        let j = choose|j: int|
            0 <= j < s.len() && s[j] == ',' && !s.take(j).contains(',') && integer_literal(
                trimmed(s.take(j)),
            ) == Some(d.0 as int) && integer_literal(trimmed(s.skip(j + 1))) == Some(d.1 as int);
        if j < k {
            assert(x[j] == ',');
            assert(x.contains(','));
        } else if j > k {
            assert(s.take(j)[k] == ',');
        }
        assert(j == k);
    }
}

} // verus!
