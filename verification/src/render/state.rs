use vstd::prelude::*;
use crate::scene::views;

verus! {

/// What selecting a node does to the drawing of one node.
#[derive(Debug, Clone, Copy, PartialEq, Eq, Structural)]
pub enum SelectionEffect {
    /// The selected node itself: its glow is raised to full.
    Highlight,
    /// Another node: its opacity is capped so that it recedes.
    Dim,
    /// A drawn node with no scene node to compare against: left alone.
    Keep,
}

/// The effect of selecting `selected` on drawn node `i`, when the scene's
/// nodes have the ids `node_ids` (drawn node `i` is scene node `i`).
pub open spec fn selection_effect(selected: Seq<char>, node_ids: Seq<Seq<char>>, i: int) -> SelectionEffect {
    if i < node_ids.len() {
        if node_ids[i] == selected {
            SelectionEffect::Highlight
        } else {
            SelectionEffect::Dim
        }
    } else {
        SelectionEffect::Keep
    }
}

/// The selection highlighting for `drawn` drawn nodes: nothing when no node
/// is selected; otherwise one effect per drawn node, highlighting the node
/// whose id is the selected one and dimming the others.
pub fn selection_effects(selected: Option<&String>, node_ids: &Vec<String>, drawn: usize) -> (r: Option<Vec<SelectionEffect>>)
    ensures
        selected is None ==> r is None,
        selected is Some ==> r is Some && r->0@.len() == drawn && forall|i: int|
            0 <= i < drawn ==> #[trigger] r->0@[i] == selection_effect(selected->0@, views(node_ids@), i),
{
    match selected {
        None => None,
        Some(sel) => {
            let mut effects: Vec<SelectionEffect> = Vec::new();
            let mut i: usize = 0;
            while i < drawn
                invariant
                    i <= drawn,
                    effects@.len() == i,
                    forall|k: int|
                        0 <= k < i ==> #[trigger] effects@[k] == selection_effect(sel@, views(node_ids@), k),
                decreases drawn - i,
            {
                let e = if i < node_ids.len() {
                    if node_ids[i] == *sel {
                        SelectionEffect::Highlight
                    } else {
                        SelectionEffect::Dim
                    }
                } else {
                    SelectionEffect::Keep
                };
                effects.push(e);
                i = i + 1;
            }
            Some(effects)
        },
    }
}

} // verus!
