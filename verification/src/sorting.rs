//! The pixel-sorting engine and its configuration.
use crate::color::{
    color_triple, spec_byte_of_scalar, spec_color_space, spec_convert, spec_index,
    spec_scalar_of_byte, Color,
    ColorComponent, ColorSpace, ColorSpaceMask,
};
use crate::raster::{Pixel, RgbImage};
use crate::text::str_eq;
use vstd::prelude::*;

verus! {

/// Enumerates possible dimensions to sort along.
#[derive(Clone, Copy, Debug, PartialEq, Eq, Structural)]
pub enum Dimension {
    Row,
    Column,
}

/// Parsing of a dimension name: exactly "Row" or "Column".
pub open spec fn spec_dimension_from_str(s: Seq<char>) -> Result<Dimension, ()> {
    if s == "Row"@ {
        Ok(Dimension::Row)
    } else if s == "Column"@ {
        Ok(Dimension::Column)
    } else {
        Err(())
    }
}

impl Dimension {
    /// Parses a dimension name. Returns `Err(())` exactly on strings other
    /// than "Row" and "Column".
    pub fn from_str(source: &str) -> (r: Result<Dimension, ()>)
        ensures
            r == spec_dimension_from_str(source@),
    {
        if str_eq(source, "Row") {
            Ok(Dimension::Row)
        } else if str_eq(source, "Column") {
            Ok(Dimension::Column)
        } else {
            Err(())
        }
    }
}

/// Groups options for a sorting operation.
#[derive(Clone, Debug)]
pub struct SortingOptions {
    /// Component to sort by.
    pub comparison_component: ColorComponent,
    /// Dimension to sort along.
    pub dimension: Dimension,
    /// Components to affect.
    pub affected_components: ColorSpaceMask,
}

/// The x/y pixel coordinates addressed by dimension-relative inner/outer
/// indices: along rows the inner axis is x, along columns it is y.
pub open spec fn spec_io_to_xy(inner_index: u32, outer_index: u32, dimension: Dimension) -> (
    u32,
    u32,
) {
    match dimension {
        Dimension::Row => (inner_index, outer_index),
        Dimension::Column => (outer_index, inner_index),
    }
}

/// Converts dimension-relative inner/outer indices to x/y pixel coordinates.
pub fn io_to_xy(inner_index: u32, outer_index: u32, dimension: Dimension) -> (r: (u32, u32))
    ensures
        r == spec_io_to_xy(inner_index, outer_index, dimension),
{
    match dimension {
        Dimension::Row => (inner_index, outer_index),
        Dimension::Column => (outer_index, inner_index),
    }
}

/// The channel of a triplet addressed by a component index.
pub open spec fn tuple_get(t: (int, int, int), j: int) -> int {
    if j == 0 {
        t.0
    } else if j == 1 {
        t.1
    } else {
        t.2
    }
}

/// Inserts a triplet into a sequence, scanning from the end past every
/// strictly larger channel `j`; on a sorted sequence this keeps it sorted
/// and places the new triplet after equal ones.
pub open spec fn spec_insert_sorted(s: Seq<(int, int, int)>, t: (int, int, int), j: int) -> Seq<
    (int, int, int),
>
    decreases s.len(),
{
    if s.len() == 0 {
        seq![t]
    } else if tuple_get(s.last(), j) <= tuple_get(t, j) {
        s.push(t)
    } else {
        spec_insert_sorted(s.drop_last(), t, j).push(s.last())
    }
}

/// Insertion sort of a triplet sequence, ascending in channel `j`.
pub open spec fn spec_sort(s: Seq<(int, int, int)>, j: int) -> Seq<(int, int, int)>
    decreases s.len(),
{
    if s.len() == 0 {
        s
    } else {
        spec_insert_sorted(spec_sort(s.drop_last(), j), s.last(), j)
    }
}

/// Whether a triplet sequence is ascending in channel `j`.
pub open spec fn spec_sorted(s: Seq<(int, int, int)>, j: int) -> bool {
    forall|a: int, b: int|
        0 <= a <= b < s.len() ==> tuple_get(#[trigger] s[a], j) <= tuple_get(#[trigger] s[b], j)
}

/// Inserting grows a sequence by one.
pub proof fn lemma_insert_sorted_len(s: Seq<(int, int, int)>, t: (int, int, int), j: int)
    ensures
        spec_insert_sorted(s, t, j).len() == s.len() + 1,
    decreases s.len(),
{
    if s.len() == 0 {
    } else if tuple_get(s.last(), j) <= tuple_get(t, j) {
    } else {
        lemma_insert_sorted_len(s.drop_last(), t, j);
    }
}

/// Sorting keeps the length.
pub proof fn lemma_sort_len(s: Seq<(int, int, int)>, j: int)
    ensures
        spec_sort(s, j).len() == s.len(),
    decreases s.len(),
{
    if s.len() == 0 {
    } else {
        lemma_sort_len(s.drop_last(), j);
        lemma_insert_sorted_len(spec_sort(s.drop_last(), j), s.last(), j);
    }
}

/// Inserting keeps any upper bound on channel `j`.
proof fn lemma_insert_sorted_key_bound(
    s: Seq<(int, int, int)>,
    t: (int, int, int),
    j: int,
    bound: int,
)
    requires
        forall|k: int| 0 <= k < s.len() ==> tuple_get(#[trigger] s[k], j) <= bound,
        tuple_get(t, j) <= bound,
    ensures
        forall|k: int|
            0 <= k < spec_insert_sorted(s, t, j).len() ==> tuple_get(
                #[trigger] spec_insert_sorted(s, t, j)[k],
                j,
            ) <= bound,
    decreases s.len(),
{
    lemma_insert_sorted_len(s, t, j);
    if s.len() == 0 {
    } else if tuple_get(s.last(), j) <= tuple_get(t, j) {
    } else {
        assert(forall|k: int|
            0 <= k < s.drop_last().len() ==> tuple_get(#[trigger] s.drop_last()[k], j) <= bound);
        lemma_insert_sorted_key_bound(s.drop_last(), t, j, bound);
        lemma_insert_sorted_len(s.drop_last(), t, j);
    }
}

/// Inserting into a sorted sequence leaves it sorted.
proof fn lemma_insert_sorted_preserves_sorted(s: Seq<(int, int, int)>, t: (int, int, int), j: int)
    requires
        spec_sorted(s, j),
    ensures
        spec_sorted(spec_insert_sorted(s, t, j), j),
    decreases s.len(),
{
    lemma_insert_sorted_len(s, t, j);
    if s.len() == 0 {
    } else if tuple_get(s.last(), j) <= tuple_get(t, j) {
        let res = s.push(t);
        assert forall|a: int, b: int| 0 <= a <= b < res.len() implies tuple_get(
            #[trigger] res[a],
            j,
        ) <= tuple_get(#[trigger] res[b], j) by {
            if b < s.len() {
                assert(res[a] == s[a] && res[b] == s[b]);
            } else {
                assert(res[b] == t);
                if a < s.len() {
                    assert(tuple_get(s[a], j) <= tuple_get(s[s.len() - 1], j));
                }
            }
        }
    } else {
        assert(spec_sorted(s.drop_last(), j)) by {
            assert(forall|k: int| 0 <= k < s.len() - 1 ==> #[trigger] s.drop_last()[k] == s[k]);
        }
        lemma_insert_sorted_preserves_sorted(s.drop_last(), t, j);
        let inner = spec_insert_sorted(s.drop_last(), t, j);
        lemma_insert_sorted_len(s.drop_last(), t, j);
        let bound = tuple_get(s.last(), j);
        assert(forall|k: int|
            0 <= k < s.drop_last().len() ==> tuple_get(#[trigger] s.drop_last()[k], j) <= bound);
        lemma_insert_sorted_key_bound(s.drop_last(), t, j, bound);
        let res = inner.push(s.last());
        assert forall|a: int, b: int| 0 <= a <= b < res.len() implies tuple_get(
            #[trigger] res[a],
            j,
        ) <= tuple_get(#[trigger] res[b], j) by {
            if b < inner.len() {
                assert(res[a] == inner[a] && res[b] == inner[b]);
            } else {
                assert(res[b] == s.last());
                if a < inner.len() {
                    assert(tuple_get(inner[a], j) <= bound);
                }
            }
        }
    }
}

/// The result of sorting is sorted.
pub proof fn lemma_sort_sorted(s: Seq<(int, int, int)>, j: int)
    ensures
        spec_sorted(spec_sort(s, j), j),
    decreases s.len(),
{
    if s.len() == 0 {
    } else {
        lemma_sort_sorted(s.drop_last(), j);
        lemma_insert_sorted_preserves_sorted(spec_sort(s.drop_last(), j), s.last(), j);
    }
}

/// Sorting an already-sorted sequence returns it unchanged: sorting is
/// idempotent on its own output.
pub proof fn lemma_sort_of_sorted_id(s: Seq<(int, int, int)>, j: int)
    requires
        spec_sorted(s, j),
    ensures
        spec_sort(s, j) == s,
    decreases s.len(),
{
    if s.len() == 0 {
        assert(spec_sort(s, j) =~= s);
    } else {
        assert(spec_sorted(s.drop_last(), j)) by {
            assert(forall|k: int| 0 <= k < s.len() - 1 ==> #[trigger] s.drop_last()[k] == s[k]);
        }
        lemma_sort_of_sorted_id(s.drop_last(), j);
        if s.len() == 1 {
            assert(spec_sort(s, j) =~= s);
        } else {
            assert(tuple_get(s.drop_last().last(), j) <= tuple_get(s.last(), j));
            assert(spec_sort(s, j) == s.drop_last().push(s.last()));
            assert(s.drop_last().push(s.last()) =~= s);
        }
    }
}

/// Sorting twice with the same channel gives the single sort's result.
pub proof fn lemma_sort_idempotent(s: Seq<(int, int, int)>, j: int)
    ensures
        spec_sort(spec_sort(s, j), j) == spec_sort(s, j),
{
    lemma_sort_sorted(s, j);
    lemma_sort_of_sorted_id(spec_sort(s, j), j);
}

/// Inserting a triplet at the position a backward scan finds — every later
/// triplet strictly larger in channel `j`, the one before not larger —
/// equals the recursive insertion.
proof fn lemma_insert_sorted_at(s: Seq<(int, int, int)>, t: (int, int, int), j: int, pos: int)
    requires
        0 <= pos <= s.len(),
        forall|k: int| pos <= k < s.len() ==> tuple_get(#[trigger] s[k], j) > tuple_get(t, j),
        pos > 0 ==> tuple_get(s[pos - 1], j) <= tuple_get(t, j),
    ensures
        spec_insert_sorted(s, t, j) == s.insert(pos, t),
    decreases s.len(),
{
    s.insert_ensures(pos, t);
    if s.len() == 0 {
        assert(spec_insert_sorted(s, t, j) =~= s.insert(0, t));
    } else if tuple_get(s.last(), j) <= tuple_get(t, j) {
        assert(pos == s.len());
        assert(s.push(t) =~= s.insert(pos, t));
    } else {
        assert(pos < s.len());
        assert(forall|k: int|
            pos <= k < s.drop_last().len() ==> tuple_get(#[trigger] s.drop_last()[k], j)
                > tuple_get(t, j));
        if pos > 0 {
            assert(s.drop_last()[pos - 1] == s[pos - 1]);
        }
        lemma_insert_sorted_at(s.drop_last(), t, j, pos);
        s.drop_last().insert_ensures(pos, t);
        assert(s.drop_last().insert(pos, t).push(s.last()) =~= s.insert(pos, t));
    }
}

/// Inserting adds exactly the inserted triplet to the sequence's contents.
proof fn lemma_insert_sorted_multiset(s: Seq<(int, int, int)>, t: (int, int, int), j: int)
    ensures
        spec_insert_sorted(s, t, j).to_multiset() =~= s.to_multiset().insert(t),
    decreases s.len(),
{
    broadcast use vstd::seq_lib::group_to_multiset_ensures;
    broadcast use vstd::multiset::group_multiset_axioms;

    if s.len() == 0 {
        assert(seq![t] =~= Seq::<(int, int, int)>::empty().push(t));
        assert(s =~= Seq::<(int, int, int)>::empty());
    } else if tuple_get(s.last(), j) <= tuple_get(t, j) {
    } else {
        lemma_insert_sorted_multiset(s.drop_last(), t, j);
        assert(s.drop_last().push(s.last()) =~= s);
        assert(spec_insert_sorted(s, t, j).to_multiset() =~= s.drop_last().to_multiset().insert(
            t,
        ).insert(s.last()));
        assert(s.to_multiset() =~= s.drop_last().to_multiset().insert(s.last()));
        assert(s.drop_last().to_multiset().insert(t).insert(s.last())
            =~= s.drop_last().to_multiset().insert(s.last()).insert(t));
    }
}

/// The sorted sequence holds exactly the triplets of the input: sorting
/// permutes a line's colors and loses none.
pub proof fn lemma_sort_permutes(s: Seq<(int, int, int)>, j: int)
    ensures
        spec_sort(s, j).to_multiset() =~= s.to_multiset(),
    decreases s.len(),
{
    broadcast use vstd::seq_lib::group_to_multiset_ensures;
    broadcast use vstd::multiset::group_multiset_axioms;

    if s.len() == 0 {
    } else {
        lemma_sort_permutes(s.drop_last(), j);
        lemma_insert_sorted_multiset(spec_sort(s.drop_last(), j), s.last(), j);
        assert(s.drop_last().push(s.last()) =~= s);
        assert(s.to_multiset() =~= s.drop_last().to_multiset().insert(s.last()));
    }
}

/// The components of each color in a sequence, as triplets.
pub open spec fn spec_triples(s: Seq<Color>) -> Seq<(int, int, int)> {
    Seq::new(s.len(), |i: int| color_triple(s[i]))
}

/// Sorts a vector of colors ascending in component `j` of their triplets.
/// The result is exactly the insertion sort of the component triplets; each
/// color of the result is one of the input colors, so every input color in
/// `space` and in range stays so.
fn sort_colors(list: &mut Vec<Color>, j: usize, space: ColorSpace)
    requires
        j < 3,
        forall|k: int|
            0 <= k < old(list)@.len() ==> (#[trigger] old(list)@[k]).space == space
                && old(list)@[k].wf(),
    ensures
        final(list)@.len() == old(list)@.len(),
        spec_triples(final(list)@) == spec_sort(spec_triples(old(list)@), j as int),
        forall|k: int|
            0 <= k < final(list)@.len() ==> (#[trigger] final(list)@[k]).space == space
                && final(list)@[k].wf(),
{
    let ghost orig = list@;
    let mut sorted_list: Vec<Color> = Vec::new();
    let mut i: usize = 0;
    while i < list.len()
        invariant
            list@ == orig,
            i <= orig.len(),
            j < 3,
            forall|k: int|
                0 <= k < orig.len() ==> (#[trigger] orig[k]).space == space && orig[k].wf(),
            sorted_list@.len() == i,
            spec_triples(sorted_list@) == spec_sort(spec_triples(orig.take(i as int)), j as int),
            forall|k: int|
                0 <= k < sorted_list@.len() ==> (#[trigger] sorted_list@[k]).space == space
                    && sorted_list@[k].wf(),
        decreases orig.len() - i,
    {
        let c = list[i];
        let key = c.components[j];
        let ghost before = sorted_list@;
        let mut pos: usize = sorted_list.len();
        while pos > 0 && sorted_list[pos - 1].components[j] > key
            invariant
                j < 3,
                sorted_list@ == before,
                pos <= before.len(),
                key == c.components@[j as int],
                forall|k: int|
                    pos <= k < before.len() ==> tuple_get(
                        color_triple(#[trigger] before[k]),
                        j as int,
                    ) > key as int,
            decreases pos,
        {
            pos -= 1;
        }
        proof {
            assert(tuple_get(color_triple(c), j as int) == key as int);
            lemma_insert_sorted_at(spec_triples(before), color_triple(c), j as int, pos as int);
            spec_triples(before).insert_ensures(pos as int, color_triple(c));
            before.insert_ensures(pos as int, c);
        }
        sorted_list.insert(pos, c);
        proof {
            assert(spec_triples(sorted_list@) =~= spec_triples(before).insert(
                pos as int,
                color_triple(c),
            ));
            let taken = orig.take(i + 1);
            assert(taken.drop_last() =~= orig.take(i as int));
            assert(taken.last() == orig[i as int]);
            assert(spec_triples(taken).drop_last() =~= spec_triples(orig.take(i as int)));
            assert(spec_triples(taken).last() == color_triple(c));
            assert(spec_sort(spec_triples(taken), j as int) == spec_insert_sorted(
                spec_sort(spec_triples(orig.take(i as int)), j as int),
                color_triple(c),
                j as int,
            ));
        }
        i += 1;
    }
    proof {
        assert(orig.take(orig.len() as int) =~= orig);
    }
    *list = sorted_list;
}

/// The length of one line: the width along rows, the height along columns.
pub open spec fn spec_inner_size(img: RgbImage, dimension: Dimension) -> int {
    match dimension {
        Dimension::Row => img.spec_width(),
        Dimension::Column => img.spec_height(),
    }
}

/// The number of lines: the height along rows, the width along columns.
pub open spec fn spec_outer_size(img: RgbImage, dimension: Dimension) -> int {
    match dimension {
        Dimension::Row => img.spec_height(),
        Dimension::Column => img.spec_width(),
    }
}

/// Line `o` of an image: its pixels along the inner axis, in order.
pub open spec fn spec_line(img: RgbImage, dimension: Dimension, o: int) -> Seq<Pixel> {
    Seq::new(
        spec_inner_size(img, dimension) as nat,
        |i: int|
            match dimension {
                Dimension::Row => img.spec_pix(i, o),
                Dimension::Column => img.spec_pix(o, i),
            },
    )
}

/// The color of a pixel, read from its bytes and converted into `space`.
pub open spec fn spec_pixel_color(p: Pixel, space: ColorSpace) -> (int, int, int) {
    spec_convert(
        ColorSpace::RGB,
        (
            spec_scalar_of_byte(p.r as int),
            spec_scalar_of_byte(p.g as int),
            spec_scalar_of_byte(p.b as int),
        ),
        space,
    )
}

/// A line's pixels as colors in `space`.
pub open spec fn spec_line_colors(l: Seq<Pixel>, space: ColorSpace) -> Seq<(int, int, int)> {
    Seq::new(l.len(), |i: int| spec_pixel_color(l[i], space))
}

/// The blended color of one position, in the mask's space: masked channels
/// come from the sorted color, the rest from the pixel's own color.
pub open spec fn spec_blend_color(
    orig: Pixel,
    sorted: (int, int, int),
    comparison_space: ColorSpace,
    mask: ColorSpaceMask,
) -> (int, int, int) {
    let source = spec_convert(comparison_space, sorted, mask.space);
    let target = spec_pixel_color(orig, mask.space);
    (
        if mask.components@[0] {
            source.0
        } else {
            target.0
        },
        if mask.components@[1] {
            source.1
        } else {
            target.1
        },
        if mask.components@[2] {
            source.2
        } else {
            target.2
        },
    )
}

/// The write-back of one position: the blended color, converted back to
/// RGB bytes. A mask with no channel set writes nothing: the pixel keeps
/// its exact bytes, untouched by any round trip through the mask's space.
pub open spec fn spec_blend_pixel(
    orig: Pixel,
    sorted: (int, int, int),
    comparison_space: ColorSpace,
    mask: ColorSpaceMask,
) -> Pixel {
    if !mask.components@[0] && !mask.components@[1] && !mask.components@[2] {
        orig
    } else {
        let rgb = spec_convert(
            mask.space,
            spec_blend_color(orig, sorted, comparison_space, mask),
            ColorSpace::RGB,
        );
        Pixel {
            r: spec_byte_of_scalar(rgb.0) as u8,
            g: spec_byte_of_scalar(rgb.1) as u8,
            b: spec_byte_of_scalar(rgb.2) as u8,
        }
    }
}

/// The sorted color sequence the pipeline blends from: a line's colors in
/// the comparison space, sorted ascending by the comparison channel.
pub open spec fn spec_sorted_colors(l: Seq<Pixel>, options: SortingOptions) -> Seq<
    (int, int, int),
> {
    spec_sort(
        spec_line_colors(l, spec_color_space(options.comparison_component)),
        spec_index(options.comparison_component),
    )
}

/// One line after the whole pipeline: convert into the comparison space,
/// sort ascending by the comparison channel, then blend each sorted color
/// into the pixel originally at its position.
pub open spec fn spec_process_line(l: Seq<Pixel>, options: SortingOptions) -> Seq<Pixel> {
    let space = spec_color_space(options.comparison_component);
    let srt = spec_sorted_colors(l, options);
    Seq::new(
        l.len(),
        |i: int| spec_blend_pixel(l[i], srt[i], space, options.affected_components),
    )
}

/// When the mask lies in the comparison space and its boolean at the
/// comparison channel is set, each position's blended color carries exactly
/// the sorted channel value, so the blended line is ascending in the
/// comparison channel: a sorted row stays visibly sorted through write-back.
pub proof fn lemma_blend_monotone(l: Seq<Pixel>, options: SortingOptions)
    requires
        options.affected_components.space == spec_color_space(options.comparison_component),
        options.affected_components.components@[spec_index(options.comparison_component)],
    ensures
        forall|a: int, b: int|
            0 <= a <= b < l.len() ==> tuple_get(
                #[trigger] spec_blend_color(
                    l[a],
                    spec_sorted_colors(l, options)[a],
                    spec_color_space(options.comparison_component),
                    options.affected_components,
                ),
                spec_index(options.comparison_component),
            ) <= tuple_get(
                #[trigger] spec_blend_color(
                    l[b],
                    spec_sorted_colors(l, options)[b],
                    spec_color_space(options.comparison_component),
                    options.affected_components,
                ),
                spec_index(options.comparison_component),
            ),
{
    let space = spec_color_space(options.comparison_component);
    let j = spec_index(options.comparison_component);
    let srt = spec_sorted_colors(l, options);
    lemma_sort_sorted(spec_line_colors(l, space), j);
    assert forall|a: int, b: int| 0 <= a <= b < l.len() implies tuple_get(
        #[trigger] spec_blend_color(l[a], srt[a], space, options.affected_components),
        j,
    ) <= tuple_get(
        #[trigger] spec_blend_color(l[b], srt[b], space, options.affected_components),
        j,
    ) by {
        lemma_sort_len(spec_line_colors(l, space), j);
        assert(tuple_get(spec_blend_color(l[a], srt[a], space, options.affected_components), j)
            == tuple_get(srt[a], j));
        assert(tuple_get(spec_blend_color(l[b], srt[b], space, options.affected_components), j)
            == tuple_get(srt[b], j));
    }
}

/// A mask with every boolean false — whatever its space — makes the
/// write-back a no-op: nothing is written, and every processed line equals
/// the line it came from byte for byte.
pub proof fn lemma_all_false_mask_no_op(l: Seq<Pixel>, options: SortingOptions)
    requires
        !options.affected_components.components@[0],
        !options.affected_components.components@[1],
        !options.affected_components.components@[2],
    ensures
        spec_process_line(l, options) =~= l,
{
    assert forall|i: int| 0 <= i < l.len() implies spec_process_line(l, options)[i] == l[i] by {
        let space = spec_color_space(options.comparison_component);
        let srt = spec_sorted_colors(l, options);
        assert(spec_blend_pixel(l[i], srt[i], space, options.affected_components) == l[i]);
    }
}

/// Returns the specified image's (width, height) when the specified
/// dimension is rows, and (height, width) otherwise.
fn get_size(image: &RgbImage, dimension: Dimension) -> (r: (u32, u32))
    ensures
        r.0 as int == spec_inner_size(*image, dimension),
        r.1 as int == spec_outer_size(*image, dimension),
{
    match dimension {
        Dimension::Row => (image.width(), image.height()),
        Dimension::Column => (image.height(), image.width()),
    }
}

/// Writing the pixel at inner index `i` of line `o` leaves every other line
/// as it was and updates only position `i` of line `o`.
proof fn lemma_line_frame(
    pre: RgbImage,
    post: RgbImage,
    dimension: Dimension,
    i: int,
    o: int,
    x: int,
    y: int,
    p: Pixel,
)
    requires
        pre.wf(),
        0 <= i < spec_inner_size(pre, dimension),
        0 <= o < spec_outer_size(pre, dimension),
        match dimension {
            Dimension::Row => x == i && y == o,
            Dimension::Column => x == o && y == i,
        },
        post.spec_width() == pre.spec_width(),
        post.spec_height() == pre.spec_height(),
        post.spec_pix(x, y) == p,
        forall|x2: int, y2: int|
            0 <= x2 < pre.spec_width() && 0 <= y2 < pre.spec_height() && !(x2 == x && y2 == y)
                ==> post.spec_pix(x2, y2) == pre.spec_pix(x2, y2),
    ensures
        forall|o2: int|
            0 <= o2 < spec_outer_size(pre, dimension) && o2 != o ==> spec_line(post, dimension, o2)
                =~= spec_line(pre, dimension, o2),
        spec_line(post, dimension, o) =~= spec_line(pre, dimension, o).update(i, p),
{
    assert forall|o2: int|
        0 <= o2 < spec_outer_size(pre, dimension) && o2 != o implies spec_line(post, dimension, o2)
        =~= spec_line(pre, dimension, o2) by {
        assert forall|i2: int| 0 <= i2 < spec_inner_size(pre, dimension) implies spec_line(
            post,
            dimension,
            o2,
        )[i2] == spec_line(pre, dimension, o2)[i2] by {
            match dimension {
                Dimension::Row => {
                    assert(post.spec_pix(i2, o2) == pre.spec_pix(i2, o2));
                },
                Dimension::Column => {
                    assert(post.spec_pix(o2, i2) == pre.spec_pix(o2, i2));
                },
            }
        }
    }
    assert forall|i2: int| 0 <= i2 < spec_inner_size(pre, dimension) implies spec_line(
        post,
        dimension,
        o,
    )[i2] == spec_line(pre, dimension, o).update(i, p)[i2] by {
        if i2 != i {
            match dimension {
                Dimension::Row => {
                    assert(post.spec_pix(i2, o) == pre.spec_pix(i2, o));
                },
                Dimension::Column => {
                    assert(post.spec_pix(o, i2) == pre.spec_pix(o, i2));
                },
            }
        }
    }
}

/// Pixel-sorts the specified image in-place using the specified options.
/// The image keeps its dimensions and pixel count, and every line along the
/// chosen dimension becomes the processed form of the line it held before.
pub fn sort_in_place(image: &mut RgbImage, options: &SortingOptions)
    requires
        old(image).wf(),
    ensures
        final(image).wf(),
        final(image).spec_width() == old(image).spec_width(),
        final(image).spec_height() == old(image).spec_height(),
        final(image).spec_pixels().len() == old(image).spec_pixels().len(),
        forall|o: int|
            0 <= o < spec_outer_size(*old(image), options.dimension) ==> spec_line(
                *final(image),
                options.dimension,
                o,
            ) =~= spec_process_line(spec_line(*old(image), options.dimension, o), *options),
{
    let comparison_component = options.comparison_component;
    let dimension = options.dimension;
    let comparison_space = comparison_component.color_space();
    let comparison_index = comparison_component.index();
    let (inner_size, outer_size) = get_size(image, dimension);
    let mut outer_index: u32 = 0;
    while outer_index < outer_size
        invariant
            image.wf(),
            image.spec_width() == old(image).spec_width(),
            image.spec_height() == old(image).spec_height(),
            outer_index <= outer_size,
            inner_size as int == spec_inner_size(*old(image), dimension),
            outer_size as int == spec_outer_size(*old(image), dimension),
            dimension == options.dimension,
            comparison_component == options.comparison_component,
            comparison_space == spec_color_space(comparison_component),
            comparison_index as int == spec_index(comparison_component),
            comparison_index < 3,
            forall|o: int|
                0 <= o < outer_index as int ==> spec_line(*image, dimension, o)
                    =~= spec_process_line(spec_line(*old(image), dimension, o), *options),
            forall|o: int|
                outer_index as int <= o < outer_size as int ==> spec_line(*image, dimension, o)
                    =~= spec_line(*old(image), dimension, o),
        decreases outer_size - outer_index,
    {
        let ghost img0 = *image;
        let ghost line0 = spec_line(img0, dimension, outer_index as int);

        // Convert the line's pixels into the comparison space.
        let mut inner: Vec<Color> = Vec::new();
        let mut inner_index: u32 = 0;
        while inner_index < inner_size
            invariant
                *image == img0,
                img0.wf(),
                inner_index <= inner_size,
                inner_size as int == spec_inner_size(img0, dimension),
                (outer_index as int) < spec_outer_size(img0, dimension),
                comparison_space == spec_color_space(comparison_component),
                line0 == spec_line(img0, dimension, outer_index as int),
                inner@.len() == inner_index as int,
                forall|k: int|
                    0 <= k < inner_index as int ==> (#[trigger] inner@[k]).space
                        == comparison_space && inner@[k].wf() && color_triple(inner@[k])
                        == spec_pixel_color(line0[k], comparison_space),
            decreases inner_size - inner_index,
        {
            let (x, y) = io_to_xy(inner_index, outer_index, dimension);
            let pixel = image.get_pixel(x, y);
            proof {
                assert(pixel == line0[inner_index as int]);
            }
            let converted = Color::rgb_from_u8(pixel.r, pixel.g, pixel.b).to_space(
                comparison_space,
            );
            inner.push(converted);
            inner_index += 1;
        }

        // Sort by the specified component.
        proof {
            assert(spec_triples(inner@) =~= spec_line_colors(line0, comparison_space));
        }
        let ghost srt = spec_sort(
            spec_line_colors(line0, comparison_space),
            spec_index(comparison_component),
        );
        sort_colors(&mut inner, comparison_index, comparison_space);
        proof {
            lemma_sort_len(spec_line_colors(line0, comparison_space), comparison_index as int);
        }

        // Affect pixels in the affected space and convert back to u8 RGB.
        let affected_space = options.affected_components.space;
        let m0 = options.affected_components.components[0];
        let m1 = options.affected_components.components[1];
        let m2 = options.affected_components.components[2];
        let mut write_index: u32 = 0;
        while write_index < inner_size
            invariant
                image.wf(),
                image.spec_width() == old(image).spec_width(),
                image.spec_height() == old(image).spec_height(),
                img0.wf(),
                img0.spec_width() == old(image).spec_width(),
                img0.spec_height() == old(image).spec_height(),
                write_index <= inner_size,
                inner_size as int == spec_inner_size(*old(image), dimension),
                outer_size as int == spec_outer_size(*old(image), dimension),
                outer_index < outer_size,
                dimension == options.dimension,
                comparison_component == options.comparison_component,
                comparison_space == spec_color_space(comparison_component),
                comparison_index as int == spec_index(comparison_component),
                affected_space == options.affected_components.space,
                m0 == options.affected_components.components@[0],
                m1 == options.affected_components.components@[1],
                m2 == options.affected_components.components@[2],
                line0 == spec_line(img0, dimension, outer_index as int),
                line0 =~= spec_line(*old(image), dimension, outer_index as int),
                line0.len() == inner_size as int,
                srt == spec_sort(
                    spec_line_colors(line0, comparison_space),
                    spec_index(comparison_component),
                ),
                srt.len() == inner_size as int,
                inner@.len() == inner_size as int,
                forall|k: int|
                    0 <= k < inner_size as int ==> (#[trigger] inner@[k]).space == comparison_space
                        && inner@[k].wf() && color_triple(inner@[k]) == srt[k],
                forall|o: int|
                    0 <= o < outer_index as int ==> spec_line(*image, dimension, o)
                        =~= spec_process_line(spec_line(*old(image), dimension, o), *options),
                forall|o: int|
                    (outer_index as int) < o < outer_size as int ==> spec_line(*image, dimension, o)
                        =~= spec_line(*old(image), dimension, o),
                forall|k: int|
                    0 <= k < write_index as int ==> spec_line(
                        *image,
                        dimension,
                        outer_index as int,
                    )[k] == spec_blend_pixel(
                        line0[k],
                        srt[k],
                        comparison_space,
                        options.affected_components,
                    ),
                forall|k: int|
                    write_index as int <= k < inner_size as int ==> spec_line(
                        *image,
                        dimension,
                        outer_index as int,
                    )[k] == line0[k],
            decreases inner_size - write_index,
        {
            let (x, y) = io_to_xy(write_index, outer_index, dimension);
            let pixel = image.get_pixel(x, y);
            proof {
                assert(spec_line(*image, dimension, outer_index as int)[write_index as int]
                    == pixel);
            }
            // A mask with no channel set writes nothing back: the pixel
            // keeps its exact bytes.
            if !m0 && !m1 && !m2 {
                proof {
                    assert(pixel == spec_blend_pixel(
                        line0[write_index as int],
                        srt[write_index as int],
                        comparison_space,
                        options.affected_components,
                    ));
                }
                write_index += 1;
                continue ;
            }
            let source = inner[write_index as usize].to_space(affected_space);
            let target = Color::rgb_from_u8(pixel.r, pixel.g, pixel.b).to_space(affected_space);
            let blended = Color {
                space: affected_space,
                components: [
                    if m0 {
                        source.components[0]
                    } else {
                        target.components[0]
                    },
                    if m1 {
                        source.components[1]
                    } else {
                        target.components[1]
                    },
                    if m2 {
                        source.components[2]
                    } else {
                        target.components[2]
                    },
                ],
            };
            proof {
                assert(blended.wf());
            }
            let rgb = blended.to_space(ColorSpace::RGB);
            let bytes = rgb.to_u8();
            let new_pixel = Pixel { r: bytes[0], g: bytes[1], b: bytes[2] };
            proof {
                assert(new_pixel == spec_blend_pixel(
                    line0[write_index as int],
                    srt[write_index as int],
                    comparison_space,
                    options.affected_components,
                ));
            }
            let ghost pre = *image;
            image.put_pixel(x, y, new_pixel);
            proof {
                RgbImage::lemma_put_pixel_frame(pre, *image, x as int, y as int, new_pixel);
                lemma_line_frame(
                    pre,
                    *image,
                    dimension,
                    write_index as int,
                    outer_index as int,
                    x as int,
                    y as int,
                    new_pixel,
                );
                assert forall|o: int| 0 <= o < outer_index as int implies spec_line(
                    *image,
                    dimension,
                    o,
                ) =~= spec_process_line(spec_line(*old(image), dimension, o), *options) by {
                    assert(spec_line(*image, dimension, o) =~= spec_line(pre, dimension, o));
                }
                assert forall|o: int|
                    (outer_index as int) < o < outer_size as int implies spec_line(
                    *image,
                    dimension,
                    o,
                ) =~= spec_line(*old(image), dimension, o) by {
                    assert(spec_line(*image, dimension, o) =~= spec_line(pre, dimension, o));
                }
                assert(spec_line(*image, dimension, outer_index as int) =~= spec_line(
                    pre,
                    dimension,
                    outer_index as int,
                ).update(write_index as int, new_pixel));
            }
            write_index += 1;
        }
        proof {
            assert forall|k: int| 0 <= k < inner_size as int implies spec_line(
                *image,
                dimension,
                outer_index as int,
            )[k] == spec_process_line(line0, *options)[k] by {
                assert(spec_process_line(line0, *options)[k] == spec_blend_pixel(
                    line0[k],
                    srt[k],
                    comparison_space,
                    options.affected_components,
                ));
            }
            assert(spec_line(*image, dimension, outer_index as int) =~= spec_process_line(
                line0,
                *options,
            ));
            assert(line0 == spec_line(*old(image), dimension, outer_index as int));
        }
        outer_index += 1;
    }
}

} // verus!
