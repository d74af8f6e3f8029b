use crate::formatting::decimal;
use crate::grid::pairs;
use crate::sparse_blocks::{extent_fits, pt, seq_dimensions, SparseBlocks};
use vstd::prelude::*;
use vstd::string::*;

verus! {

/// What std's default hasher (`DefaultHasher::new`, which is not seeded) gives for the sequence
/// of coordinate pairs. std does not fix the algorithm across its releases, and the hash of an
/// `isize` depends on its width, so the value is the same within one build, not across builds.
pub uninterp spec fn coords_hash(v: Seq<(int, int)>) -> u64;

/// What std's default hasher (`DefaultHasher::new`, which is not seeded) gives for the pair of
/// dimensions. std does not fix the algorithm across its releases, and the hash of a `usize`
/// depends on its width, so the value is the same within one build, not across builds.
pub uninterp spec fn dims_hash(d0: usize, d1: usize) -> u64;

/// `BuildHasher::hash_one` of std, with the default hasher, on a vector of coordinates: the
/// hash of its length and then of each coordinate array. The contract claims only that the
/// result depends on the coordinates alone, in their order.
#[verifier::external_body]
fn hash_coords(v: &Vec<[isize; 2]>) -> (h: u64)
    ensures
        h == coords_hash(pairs(v@)),
{
    std::hash::BuildHasher::hash_one(&std::hash::BuildHasherDefault::<std::hash::DefaultHasher>::default(), v)
}

/// `BuildHasher::hash_one` of std, with the default hasher, on a pair of dimensions. The
/// contract claims only that the result depends on the two dimensions alone.
#[verifier::external_body]
fn hash_dims(dims: [usize; 2]) -> (h: u64)
    ensures
        h == dims_hash(dims[0], dims[1]),
{
    std::hash::BuildHasher::hash_one(&std::hash::BuildHasherDefault::<std::hash::DefaultHasher>::default(), dims)
}

/// `p` comes strictly before `q`: by x first, then by y.
pub open spec fn lex_before(p: (int, int), q: (int, int)) -> bool {
    p.0 < q.0 || (p.0 == q.0 && p.1 < q.1)
}

/// The points are in strictly increasing order.
pub open spec fn lex_sorted(s: Seq<(int, int)>) -> bool {
    forall|i: int, j: int| 0 <= i < j < s.len() ==> lex_before(#[trigger] s[i], #[trigger] s[j])
}

/// The hashes of the normal forms of the small shapes, in the order of their colors: the bars
/// of one to five blocks, the bracket triomino, and the skew, T, square and L tetrominoes.
pub open spec fn small_shape_hashes() -> Seq<u64> {
    seq![
        6420002640197838707u64,
        2915436035146535286u64,
        6444618775187902610u64,
        7776891254995127166u64,
        11950804322075204449u64,
        8096643921108516772u64,
        17590444270234595342u64,
        8477383144400419704u64,
        7757481152709758788u64,
        13159953227328387611u64,
    ]
}

/// The letters that label shapes that are no bar.
pub open spec fn alphabet() -> Seq<char> {
    "ABCDEFGHIJKLMNOPQRSTUVWXYZ"@
}

/// The rotated dimensions: the long side first.
pub open spec fn rotated_dims(s: Seq<(int, int)>) -> (int, int) {
    let d = seq_dimensions(s);
    if d.0 < d.1 {
        (d.1, d.0)
    } else {
        d
    }
}

/// The label of a shape: the length for a bar one block wide, else a capital letter picked by
/// the hash of the rotated dimensions.
pub open spec fn shape_label(s: Seq<(int, int)>) -> Seq<char> {
    let d = rotated_dims(s);
    if d.1 == 1 {
        decimal(d.0 as nat)
    } else {
        let k = (dims_hash(d.0 as usize, d.1 as usize) % 26) as int;
        alphabet().subrange(k, k + 1)
    }
}

impl SparseBlocks {
    /// The coordinates in increasing order, by x first, then by y.
    pub fn sorted_coords(&self) -> (sorted: Vec<[isize; 2]>)
        requires
            self.wf(),
        ensures
            lex_sorted(pairs(sorted@)),
            pairs(sorted@).to_set() == self.points(),
            pairs(sorted@).len() == self@.len(),
    {
        let coords = self.get_coords();
        let ghost s = self@;
        let mut sorted: Vec<[isize; 2]> = Vec::new();
        let mut k: usize = 0;
        while k < coords.len()
            invariant
                s == pairs(coords@),
                s.no_duplicates(),
                k <= s.len(),
                lex_sorted(pairs(sorted@)),
                pairs(sorted@).to_set() == s.take(k as int).to_set(),
                pairs(sorted@).len() == k,
            decreases s.len() - k,
        {
            let p = coords[k];
            let ghost before = pairs(sorted@);
            assert(pt(p) == s[k as int]);
            assert(!before.to_set().contains(s[k as int])) by {
                if before.to_set().contains(s[k as int]) {
                    assert(s.take(k as int).contains(s[k as int]));
                    let j = choose|j: int| 0 <= j < k && s.take(k as int)[j] == s[k as int];
                    assert(s[j] == s[k as int]);
                }
            }
            let mut pos: usize = 0;
            while pos < sorted.len() && (sorted[pos][0] < p[0] || (sorted[pos][0] == p[0] && sorted[pos][1] < p[1]))
                invariant
                    pos <= before.len(),
                    before == pairs(sorted@),
                    lex_sorted(before),
                    forall|j: int| 0 <= j < pos ==> lex_before(#[trigger] before[j], pt(p)),
                decreases before.len() - pos,
            {
                pos = pos + 1;
            }
            proof {
                if pos < before.len() {
                    assert(before[pos as int] != pt(p)) by {
                        assert(before.to_set().contains(before[pos as int]));
                    }
                    assert(lex_before(pt(p), before[pos as int]));
                }
            }
            sorted.insert(pos, p);
            proof {
                let after = pairs(sorted@);
                assert(after =~= before.insert(pos as int, pt(p)));
                assert forall|i: int, j: int| 0 <= i < j < after.len() implies lex_before(
                    #[trigger] after[i],
                    #[trigger] after[j],
                ) by {
                    if j < pos {
                        assert(after[i] == before[i] && after[j] == before[j]);
                    } else if j == pos {
                        assert(after[i] == before[i]);
                    } else if i < pos {
                        assert(after[i] == before[i] && after[j] == before[j - 1]);
                        if pos < before.len() {
                            assert(lex_before(pt(p), before[pos as int]));
                        }
                        assert(lex_before(before[i], pt(p)));
                        if j - 1 > pos {
                            assert(lex_before(before[pos as int], before[j - 1]));
                        }
                    } else if i == pos {
                        assert(after[j] == before[j - 1]);
                        if j - 1 > pos {
                            assert(lex_before(before[pos as int], before[j - 1]));
                        }
                    } else {
                        assert(after[i] == before[i - 1] && after[j] == before[j - 1]);
                    }
                }
                assert(s.take(k + 1) =~= s.take(k as int).push(s[k as int]));
                s.take(k as int).lemma_push_to_set_commute(s[k as int]);
                assert forall|x: (int, int)| after.to_set().contains(x) <==> before.to_set().insert(pt(p)).contains(x) by {
                    if after.contains(x) {
                        let j = choose|j: int| 0 <= j < after.len() && after[j] == x;
                        if j < pos {
                            assert(before.contains(before[j]));
                        } else if j > pos {
                            assert(before.contains(before[j - 1]));
                        }
                    }
                    if before.contains(x) {
                        let j = choose|j: int| 0 <= j < before.len() && before[j] == x;
                        if j < pos {
                            assert(after[j] == x);
                        } else {
                            assert(after[j + 1] == x);
                        }
                    }
                    if x == pt(p) {
                        assert(after[pos as int] == x);
                    }
                }
                assert(after.to_set() =~= before.to_set().insert(pt(p)));
            }
            k = k + 1;
        }
        assert(s.take(k as int) =~= s);
        sorted
    }

    /// The hash of the coordinates in increasing order: a key that is the same for shapes with the
    /// same blocks.
    pub fn shape_hash(&self) -> (h: u64)
        requires
            self.wf(),
        ensures
            exists|v: Seq<(int, int)>| lex_sorted(v) && v.to_set() == self.points() && h == coords_hash(v),
    {
        let sorted = self.sorted_coords();
        hash_coords(&sorted)
    }

    /// The position of the shape among the small shapes with a color of their own, found by the
    /// hash of its coordinates (for a shape in normal form).
    pub fn small_shape_index(&self) -> (r: Option<usize>)
        requires
            self.wf(),
        ensures
            exists|v: Seq<(int, int)>|
                lex_sorted(v) && v.to_set() == self.points() && match r {
                    Some(k) => k < 10 && small_shape_hashes()[k as int] == coords_hash(v) && forall|j: int|
                        0 <= j < k ==> small_shape_hashes()[j] != coords_hash(v),
                    None => forall|j: int| 0 <= j < 10 ==> small_shape_hashes()[j] != coords_hash(v),
                },
    {
        let sorted = self.sorted_coords();
        let h = hash_coords(&sorted);
        let ghost v = pairs(sorted@);
        let hashes: [u64; 10] = [
            6420002640197838707u64,
            2915436035146535286u64,
            6444618775187902610u64,
            7776891254995127166u64,
            11950804322075204449u64,
            8096643921108516772u64,
            17590444270234595342u64,
            8477383144400419704u64,
            7757481152709758788u64,
            13159953227328387611u64,
        ];
        assert(hashes@ =~= small_shape_hashes());
        let mut k: usize = 0;
        while k < 10
            invariant
                k <= 10,
                hashes@ == small_shape_hashes(),
                h == coords_hash(v),
                lex_sorted(v),
                v.to_set() == self.points(),
                forall|j: int| 0 <= j < k ==> small_shape_hashes()[j] != coords_hash(v),
            decreases 10 - k,
        {
            if hashes[k] == h {
                return Some(k);
            }
            k = k + 1;
        }
        None
    }

    /// The label shown on a shape: the length if it is a bar one block wide, otherwise a letter
    /// picked by the hash of its dimensions.
    pub fn label(&self) -> (s: String)
        requires
            extent_fits(self@),
        ensures
            s@ == shape_label(self@),
    {
        let dim = self.get_rotated_dimensions();
        if dim[1] == 1 {
            let mut s = String::new();
            crate::formatting::push_decimal(&mut s, dim[0] as u64);
            assert(s@ =~= decimal(dim[0] as nat));
            s
        } else {
            let h = hash_dims(dim);
            let k = (h % 26) as usize;
            let letters = "ABCDEFGHIJKLMNOPQRSTUVWXYZ";
            proof {
                reveal_strlit("ABCDEFGHIJKLMNOPQRSTUVWXYZ");
            }
            let letter = letters.substring_ascii(k, k + 1);
            String::from_str(letter)
        }
    }
}

} // verus!
