use vstd::prelude::*;
use crate::source::{ImageModel, SourceImage};

verus! {

/// The images that are exactly `height` texels tall, in the order in which
/// they were handed in.
pub open spec fn bucket(images: Seq<ImageModel>, height: int) -> Seq<ImageModel> {
    images.filter(|image: ImageModel| image.height == height)
}

/// The buckets of the heights from `height` down to zero, one after the
/// other, the tallest first.
pub open spec fn buckets_down(images: Seq<ImageModel>, height: int) -> Seq<ImageModel>
    decreases height + 1,
{
    if height < 0 {
        Seq::empty()
    } else {
        bucket(images, height) + buckets_down(images, height - 1)
    }
}

/// The order in which images are packed: by height, the tallest first;
/// images of one height in the order in which they were handed in; images
/// taller than `max_height` left out.
pub open spec fn packing_order(images: Seq<ImageModel>, max_height: int) -> Seq<ImageModel> {
    buckets_down(images, max_height)
}

/// The heights never increase along the sequence.
pub open spec fn tallest_first(order: Seq<ImageModel>) -> bool {
    forall|i: int, j: int| 0 <= i <= j < order.len() ==> order[i].height >= order[j].height
}

/// An image that is put in front of the others does not show in the buckets
/// below its own height.
proof fn lemma_buckets_below(first: ImageModel, images: Seq<ImageModel>, height: int)
    requires
        height < first.height,
    ensures
        buckets_down(seq![first] + images, height) == buckets_down(images, height),
    decreases height + 1,
{
    if height >= 0 {
        let pred = |image: ImageModel| image.height == height;
        Seq::filter_distributes_over_add(seq![first], images, pred);
        reveal_with_fuel(Seq::filter, 2);
        assert(seq![first].drop_last() =~= Seq::<ImageModel>::empty());
        assert(seq![first].filter(pred) =~= Seq::<ImageModel>::empty());
        assert(bucket(seq![first] + images, height) =~= bucket(images, height));
        lemma_buckets_below(first, images, height - 1);
    }
}

/// An image that is put in front of the others comes to stand in front of
/// those that are no taller than it is, and behind the taller ones.
proof fn lemma_buckets_prepend(first: ImageModel, images: Seq<ImageModel>, height: int)
    requires
        0 <= first.height <= height,
    ensures
        buckets_down(images, first.height).len() <= buckets_down(images, height).len(),
        buckets_down(seq![first] + images, height) == buckets_down(images, height).insert(
            buckets_down(images, height).len() - buckets_down(images, first.height).len(),
            first,
        ),
    decreases height + 1,
{
    let pred = |image: ImageModel| image.height == height;
    Seq::filter_distributes_over_add(seq![first], images, pred);
    reveal_with_fuel(Seq::filter, 2);
    assert(seq![first].drop_last() =~= Seq::<ImageModel>::empty());
    if height == first.height {
        assert(seq![first].filter(pred) =~= seq![first]);
        lemma_buckets_below(first, images, height - 1);
        assert(buckets_down(seq![first] + images, height) =~= buckets_down(images, height).insert(
            0,
            first,
        ));
    } else {
        assert(seq![first].filter(pred) =~= Seq::<ImageModel>::empty());
        assert(bucket(seq![first] + images, height) =~= bucket(images, height));
        lemma_buckets_prepend(first, images, height - 1);
        let below = buckets_down(images, height - 1);
        let at = below.len() - buckets_down(images, first.height).len();
        assert(buckets_down(seq![first] + images, height) =~= buckets_down(images, height).insert(
            bucket(images, height).len() + at,
            first,
        ));
    }
}

/// Where the buckets down from `height` pass from the images taller than
/// `level` to those that are not.
proof fn lemma_buckets_split(images: Seq<ImageModel>, height: int, level: int)
    requires
        -1 <= level <= height,
    ensures
        buckets_down(images, level).len() <= buckets_down(images, height).len(),
        forall|i: int|
            0 <= i < buckets_down(images, height).len() ==> ((#[trigger] buckets_down(
                images,
                height,
            )[i]).height > level <==> i < buckets_down(images, height).len() - buckets_down(
                images,
                level,
            ).len()),
    decreases height + 1,
{
    let all = buckets_down(images, height);
    if height >= 0 {
        let pred = |image: ImageModel| image.height == height;
        let top = bucket(images, height);
        assert forall|i: int| 0 <= i < top.len() implies (#[trigger] top[i]).height == height by {
            images.lemma_filter_pred(pred, i);
        }
        if level == height {
            lemma_buckets_split(images, height - 1, height - 1);
            let below = buckets_down(images, height - 1);
            assert forall|i: int| 0 <= i < all.len() implies !((#[trigger] all[i]).height
                > level) by {
                if i >= top.len() {
                    assert(all[i] == below[i - top.len()]);
                }
            }
        } else {
            lemma_buckets_split(images, height - 1, level);
            let below = buckets_down(images, height - 1);
            assert forall|i: int| 0 <= i < all.len() implies ((#[trigger] all[i]).height > level
                <==> i < all.len() - buckets_down(images, level).len()) by {
                if i >= top.len() {
                    assert(all[i] == below[i - top.len()]);
                }
            }
        }
    }
}

/// The packing order holds no image taller than the cutoff, and its heights
/// never increase.
pub proof fn lemma_packing_order_sorted(images: Seq<ImageModel>, max_height: int)
    ensures
        tallest_first(packing_order(images, max_height)),
        forall|i: int|
            0 <= i < packing_order(images, max_height).len() ==> 0 <= (#[trigger] packing_order(
                images,
                max_height,
            )[i]).height <= max_height,
    decreases max_height + 1,
{
    let all = buckets_down(images, max_height);
    if max_height >= 0 {
        let pred = |image: ImageModel| image.height == max_height;
        let top = bucket(images, max_height);
        let below = buckets_down(images, max_height - 1);
        lemma_packing_order_sorted(images, max_height - 1);
        assert forall|i: int| 0 <= i < top.len() implies (#[trigger] top[i]).height
            == max_height by {
            images.lemma_filter_pred(pred, i);
        }
        assert forall|i: int| 0 <= i < all.len() implies 0 <= (#[trigger] all[i]).height
            <= max_height by {
            if i >= top.len() {
                assert(all[i] == below[i - top.len()]);
            }
        }
        assert forall|i: int, j: int| 0 <= i <= j < all.len() implies all[i].height
            >= all[j].height by {
            if i >= top.len() {
                assert(all[i] == below[i - top.len()]);
            }
            if j >= top.len() {
                assert(all[j] == below[j - top.len()]);
            }
        }
    }
}

/// What a filter keeps, it has from the sequence.
pub proof fn lemma_filter_from(images: Seq<ImageModel>, pred: spec_fn(ImageModel) -> bool)
    ensures
        forall|i: int|
            0 <= i < images.filter(pred).len() ==> images.contains(#[trigger] images.filter(pred)[i]),
    decreases images.len(),
{
    reveal(Seq::filter);
    let kept = images.filter(pred);
    if images.len() > 0 {
        let front = images.drop_last();
        lemma_filter_from(front, pred);
        assert forall|i: int| 0 <= i < kept.len() implies images.contains(#[trigger] kept[i]) by {
            if i < front.filter(pred).len() {
                assert(kept[i] == front.filter(pred)[i]);
                assert(front.contains(front.filter(pred)[i]));
                let j = choose|j: int| 0 <= j < front.len() && front[j] == kept[i];
                assert(images[j] == kept[i]);
            } else {
                assert(kept[i] == images[images.len() - 1]);
            }
        }
    }
}

/// The packing order holds images that were handed in, and holds each image
/// that was handed in and is no taller than the cutoff.
pub proof fn lemma_packing_order_members(images: Seq<ImageModel>, max_height: int)
    ensures
        forall|i: int|
            0 <= i < packing_order(images, max_height).len() ==> images.contains(
                #[trigger] packing_order(images, max_height)[i],
            ),
        forall|j: int|
            0 <= j < images.len() && 0 <= (#[trigger] images[j]).height <= max_height
                ==> packing_order(images, max_height).contains(images[j]),
    decreases max_height + 1,
{
    let all = buckets_down(images, max_height);
    if max_height >= 0 {
        let pred = |image: ImageModel| image.height == max_height;
        let top = bucket(images, max_height);
        let below = buckets_down(images, max_height - 1);
        lemma_packing_order_members(images, max_height - 1);
        lemma_filter_from(images, pred);
        assert forall|i: int| 0 <= i < all.len() implies images.contains(#[trigger] all[i]) by {
            if i >= top.len() {
                assert(all[i] == below[i - top.len()]);
                assert(images.contains(packing_order(images, max_height - 1)[i - top.len()]));
            } else {
                assert(all[i] == top[i]);
                assert(images.contains(images.filter(pred)[i]));
            }
        }
        assert forall|j: int|
            0 <= j < images.len() && 0 <= (#[trigger] images[j]).height
                <= max_height implies all.contains(images[j]) by {
            if images[j].height == max_height {
                images.lemma_filter_contains(pred, j);
                let i = choose|i: int| 0 <= i < top.len() && top[i] == images[j];
                assert(all[i] == images[j]);
            } else {
                assert(packing_order(images, max_height - 1).contains(images[j]));
                let i = choose|i: int| 0 <= i < below.len() && below[i] == images[j];
                assert(all[top.len() + i] == images[j]);
            }
        }
    }
}

/// The first position of `order` whose image is no taller than `height`.
fn insertion_point(order: &Vec<SourceImage>, height: u32) -> (at: usize)
    ensures
        at <= order.len(),
        forall|i: int| 0 <= i < at ==> (#[trigger] order.deep_view()[i]).height > height,
        at < order.len() ==> order.deep_view()[at as int].height <= height,
{
    let mut at: usize = 0;
    while at < order.len() && order[at].height() > height
        invariant
            at <= order.len(),
            forall|i: int| 0 <= i < at ==> (#[trigger] order.deep_view()[i]).height > height,
        decreases order.len() - at,
    {
        at += 1;
    }
    at
}

/// Brings the images into packing order and drops those that are taller
/// than `max_height`.
pub fn sort_textures(textures: Vec<SourceImage>, max_height: u32) -> (order: Vec<SourceImage>)
    ensures
        order.deep_view() == packing_order(textures.deep_view(), max_height as int),
{
    let ghost all = textures.deep_view();
    let mut rest = textures;
    let mut order: Vec<SourceImage> = Vec::new();
    proof {
        lemma_buckets_empty(max_height as int);
        assert(all.skip(rest.len() as int) =~= Seq::<ImageModel>::empty());
    }
    loop
        invariant
            rest.len() <= all.len(),
            rest.deep_view() == all.take(rest.len() as int),
            order.deep_view() == packing_order(all.skip(rest.len() as int), max_height as int),
        ensures
            rest.len() == 0,
            order.deep_view() == packing_order(all.skip(rest.len() as int), max_height as int),
        decreases rest.len(),
    {
        let ghost before = rest.deep_view();
        let ghost sorted = order.deep_view();
        let ghost tail = all.skip(rest.len() as int);
        match rest.pop() {
            None => {
                break ;
            },
            Some(image) => {
                let ghost model = image@;
                proof {
                    assert(model == before[before.len() - 1]);
                    assert(rest.deep_view() =~= all.take(rest.len() as int));
                    assert(all.skip(rest.len() as int) =~= seq![model] + tail);
                }
                let height = image.height();
                if height <= max_height {
                    let at = insertion_point(&order, height);
                    proof {
                        lemma_buckets_prepend(model, tail, max_height as int);
                        lemma_buckets_split(tail, max_height as int, height as int);
                    }
                    order.insert(at, image);
                    proof {
                        assert(order.deep_view() =~= sorted.insert(at as int, model));
                    }
                } else {
                    proof {
                        lemma_buckets_below(model, tail, max_height as int);
                    }
                }
            },
        }
    }
    proof {
        assert(all.skip(0) =~= all);
    }
    order
}

/// No image, no order.
proof fn lemma_buckets_empty(height: int)
    ensures
        buckets_down(Seq::<ImageModel>::empty(), height) == Seq::<ImageModel>::empty(),
    decreases height + 1,
{
    if height >= 0 {
        lemma_buckets_empty(height - 1);
        reveal_with_fuel(Seq::filter, 1);
        assert(bucket(Seq::<ImageModel>::empty(), height) =~= Seq::<ImageModel>::empty());
    }
}

} // verus!
