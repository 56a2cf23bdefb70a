//! Stacking equally sized texture images into the layers of one texture array.
use vstd::prelude::*;

verus! {

/// One image: its size in pixels and its bytes.
pub struct TextureLayer {
    pub width: u32,
    pub height: u32,
    pub data: Vec<u8>,
}

/// A texture array: the size of each layer, the number of layers, and the layers' bytes one
/// after another.
pub struct TextureStack {
    pub width: u32,
    pub height: u32,
    pub layers: u32,
    pub data: Vec<u8>,
}

/// The bytes of `layers`, in order, one after another.
pub open spec fn stacked(layers: Seq<TextureLayer>) -> Seq<u8>
    decreases layers.len(),
{
    if layers.len() == 0 {
        Seq::empty()
    } else {
        stacked(layers.drop_last()) + layers.last().data@
    }
}

/// Every layer has the size of the first.
pub open spec fn same_size(layers: Seq<TextureLayer>) -> bool {
    forall|i: int|
        0 <= i < layers.len() ==> #[trigger] layers[i].width == layers[0].width && layers[i].height
            == layers[0].height
}

/// Stacks `layers` into one texture array whose layers have the size of the first image;
/// with no image, the size is that of the default one-pixel image. Images of another size
/// than the first are refused by `requires`: stacking them would be a fault.
pub fn stack_layers(layers: &Vec<TextureLayer>) -> (r: TextureStack)
    requires
        layers@.len() <= u32::MAX,
        same_size(layers@),
    ensures
        r.layers == layers@.len(),
        layers@.len() == 0 ==> r.width == 1 && r.height == 1,
        layers@.len() > 0 ==> r.width == layers@[0].width && r.height == layers@[0].height,
        r.data@ == stacked(layers@),
{
    let (width, height) = if layers.len() == 0 {
        (1u32, 1u32)
    } else {
        (layers[0].width, layers[0].height)
    };
    let mut data: Vec<u8> = Vec::new();
    let mut i: usize = 0;
    while i < layers.len()
        invariant
            i <= layers@.len(),
            data@ == stacked(layers@.take(i as int)),
        decreases layers@.len() - i,
    {
        let layer = &layers[i];
        let ghost before = data@;
        let mut j: usize = 0;
        while j < layer.data.len()
            invariant
                j <= layer.data@.len(),
                data@ == before + layer.data@.take(j as int),
            decreases layer.data@.len() - j,
        {
            data.push(layer.data[j]);
            j = j + 1;
            assert(layer.data@.take(j as int) == layer.data@.take(j - 1).push(layer.data@[j - 1]));
        }
        assert(layer.data@.take(j as int) == layer.data@);
        assert(layers@.take(i + 1).drop_last() == layers@.take(i as int));
        i = i + 1;
    }
    assert(layers@.take(i as int) == layers@);
    TextureStack { width, height, layers: layers.len() as u32, data }
}

} // verus!
