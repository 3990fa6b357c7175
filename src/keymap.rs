//! Keymaps, and their resolution into display labels.

use vstd::prelude::*;

use crate::keycodes::{get_keycode_label, resolve, KeycodeInfoView, KeycodeTable};

verus! {

/// One firmware keymap: the board, the keymap's and the layout's names, and
/// its layers, each an ordered row of keycode identifiers.
#[derive(Debug)]
pub struct Keymap {
    pub keyboard: String,
    pub keymap: String,
    pub layout: String,
    pub layers: Vec<Vec<String>>,
}

/// The number of cells in each row of a resolved grid: the length of the
/// first layer, or zero where there is none.
pub open spec fn grid_width(km: &Keymap) -> int {
    if km.layers@.len() == 0 {
        0
    } else {
        km.layers@[0]@.len() as int
    }
}

/// The resolved cell at layer `i`, column `j`: the label of the identifier
/// there, or the empty string where layer `i` is shorter than the first.
pub open spec fn resolved_cell(
    km: &Keymap,
    m: Map<Seq<char>, KeycodeInfoView>,
    i: int,
    j: int,
) -> Seq<char> {
    if j < km.layers@[i]@.len() {
        resolve(km.layers@[i]@[j]@, m)
    } else {
        Seq::empty()
    }
}

/// Resolves every cell of every layer through `keycodes`. The grid has one
/// row per layer, each as long as the first layer: a shorter layer is padded
/// with empty strings, and the cells of a longer one past that width are
/// left out.
pub fn parse_keymap_layers(keymap: &Keymap, keycodes: &KeycodeTable) -> (r: Vec<Vec<String>>)
    requires
        keycodes.wf(),
    ensures
        r@.len() == keymap.layers@.len(),
        forall|i: int| 0 <= i < r@.len() ==> (#[trigger] r@[i])@.len() == grid_width(keymap),
        forall|i: int, j: int|
            0 <= i < r@.len() && 0 <= j < grid_width(keymap) ==> (#[trigger] r@[i]@[j])@
                == resolved_cell(keymap, keycodes@, i, j),
{
    let width: usize = if keymap.layers.len() == 0 {
        0
    } else {
        keymap.layers[0].len()
    };
    let mut grid: Vec<Vec<String>> = Vec::new();
    let mut i: usize = 0;
    while i < keymap.layers.len()
        invariant
            i <= keymap.layers@.len(),
            width == grid_width(keymap),
            keycodes.wf(),
            grid@.len() == i,
            forall|i1: int| 0 <= i1 < i ==> (#[trigger] grid@[i1])@.len() == width,
            forall|i1: int, j1: int|
                0 <= i1 < i && 0 <= j1 < width ==> (#[trigger] grid@[i1]@[j1])@
                    == resolved_cell(keymap, keycodes@, i1, j1),
        decreases keymap.layers@.len() - i,
    {
        let layer = &keymap.layers[i];
        let mut row: Vec<String> = Vec::new();
        let mut j: usize = 0;
        while j < width
            invariant
                j <= width,
                i < keymap.layers@.len(),
                *layer == keymap.layers@[i as int],
                keycodes.wf(),
                row@.len() == j,
                forall|j1: int|
                    0 <= j1 < j ==> (#[trigger] row@[j1])@ == resolved_cell(
                        keymap,
                        keycodes@,
                        i as int,
                        j1,
                    ),
            decreases width - j,
        {
            if j < layer.len() {
                row.push(get_keycode_label(layer[j].as_str(), keycodes));
            } else {
                row.push(String::new());
            }
            j = j + 1;
        }
        grid.push(row);
        i = i + 1;
    }
    grid
}

} // verus!
