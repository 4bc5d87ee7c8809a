//! What assembling a design keeps: every module is there, under its own name or that of
//! a leaf that is the same, and instances still stand for what they stood for.

use super::design::{
    is_canonical, is_design_of, is_first_shape, kept_places, names_at, renamed, repeats, same_shape, stands_for,
};
use crate::ir::routable::{BodyView, RoutableDesign, RoutableModuleView};
use crate::order::{distinct_covers, is_text_order, text_order_distinct, texts_in_order};
use crate::text::chars_before;
use vstd::prelude::*;

verus! {

/// Whether no two modules have one name.
pub open spec fn names_differ(modules: Seq<RoutableModuleView>) -> bool {
    forall|i: int, j: int|
        0 <= i < j < modules.len() ==> (#[trigger] modules[i]).name != (#[trigger] modules[j]).name
}

/// Whether a design has a module of a name, with the ports and the body of a leaf.
pub open spec fn has_leaf(design: RoutableDesign, name: Seq<char>, leaf: RoutableModuleView) -> bool {
    exists|d: int|
        {
            &&& 0 <= d < design.modules@.len()
            &&& (#[trigger] design.modules@[d])@.name == name
            &&& design.modules@[d]@.ports == leaf.ports
            &&& design.modules@[d]@.body == leaf.body
        }
}

/// Whether a design has a composite: with its ports and nets, and with its instances,
/// each of a leaf that is the same as the one that it was an instance of.
pub open spec fn has_composite(
    design: RoutableDesign,
    modules: Seq<RoutableModuleView>,
    composite: RoutableModuleView,
) -> bool {
    exists|d: int|
        {
            &&& 0 <= d < design.modules@.len()
            &&& (#[trigger] design.modules@[d])@.name == composite.name
            &&& design.modules@[d]@.ports == composite.ports
            &&& match (design.modules@[d]@.body, composite.body) {
                (BodyView::Composite(instances, nets), BodyView::Composite(wanted, wires)) => {
                    &&& nets == wires
                    &&& instances.len() == wanted.len()
                    &&& forall|k: int| 0 <= k < instances.len() ==> (#[trigger] instances[k]).name == wanted[k].name
                    &&& forall|k: int, j: int|
                        0 <= k < instances.len() && 0 <= j < modules.len() && (#[trigger] modules[j]).name == (
                        #[trigger] wanted[k]).module && modules[j].body is Leaf ==> has_leaf(
                            design,
                            instances[k].module,
                            modules[j],
                        )
                },
                _ => false,
            }
        }
}

proof fn kept_is_listed(modules: Seq<RoutableModuleView>, top: Seq<char>, count: nat, index: int)
    requires
        0 <= index < count <= modules.len(),
        !repeats(modules, top, index),
    ensures
        kept_places(modules, top, count).contains(index),
    decreases count,
{
    let all = kept_places(modules, top, count);
    let before = kept_places(modules, top, (count - 1) as nat);
    if index == count - 1 {
        assert(all[before.len() as int] == index);
    } else {
        kept_is_listed(modules, top, (count - 1) as nat, index);
        let i = choose|i: int| 0 <= i < before.len() && before[i] == index;
        assert(all[i] == index);
    }
}

proof fn kept_are_places(modules: Seq<RoutableModuleView>, top: Seq<char>, count: nat)
    requires
        count <= modules.len(),
    ensures
        kept_places(modules, top, count).len() <= count,
        forall|i: int|
            0 <= i < kept_places(modules, top, count).len() ==> 0 <= #[trigger] kept_places(modules, top, count)[i]
                < count,
        forall|i: int, j: int|
            0 <= i < j < kept_places(modules, top, count).len() ==> kept_places(modules, top, count)[i] < kept_places(
                modules,
                top,
                count,
            )[j],
    decreases count,
{
    if count > 0 {
        kept_are_places(modules, top, (count - 1) as nat);
    }
}

/// The module of a design that a kept module has become.
proof fn kept_is_there(
    top: Seq<char>,
    target: Seq<char>,
    modules: Seq<RoutableModuleView>,
    design: RoutableDesign,
    order: Seq<usize>,
    canonical: Map<Seq<char>, String>,
    index: int,
) -> (d: int)
    requires
        design.modules.len() == kept_places(modules, top, modules.len()).len(),
        is_text_order(names_at(modules, kept_places(modules, top, modules.len())), order),
        forall|i: int|
            0 <= i < kept_places(modules, top, modules.len()).len() ==> (#[trigger] design.modules[i])@ == renamed(
                modules[kept_places(modules, top, modules.len())[order[i] as int]],
                canonical,
            ),
        0 <= index < modules.len(),
        !repeats(modules, top, index),
    ensures
        0 <= d < design.modules.len(),
        design.modules[d]@ == renamed(modules[index], canonical),
{
    let kept = kept_places(modules, top, modules.len());
    let names = names_at(modules, kept);
    kept_is_listed(modules, top, modules.len(), index);
    let place = choose|place: int| 0 <= place < kept.len() && kept[place] == index;
    text_order_distinct(names, order);
    assert(order.len() == kept.len());
    assert(design.modules.len() as nat == kept.len());
    distinct_covers(order, place as usize);
    let d = choose|d: int| 0 <= d < order.len() && order[d] == place as usize;
    d
}

/// An assembled design holds every module that it was made of: a leaf is there under its
/// own name or that of an earlier leaf with the same ports and nodes, and a composite is
/// there with its ports, its nets and its instances, each of a leaf that is the same as
/// before. Modules come in order of their names, each name once.
pub proof fn design_holds_every_module(
    top: Seq<char>,
    target: Seq<char>,
    modules: Seq<RoutableModuleView>,
    design: RoutableDesign,
    index: int,
)
    requires
        is_design_of(top, target, modules, design),
        names_differ(modules),
        0 <= index < modules.len(),
    ensures
        design.top@ == top,
        design.target@ == target,
        modules[index].body is Leaf ==> exists|name: Seq<char>| #[trigger] has_leaf(design, name, modules[index]),
        modules[index].body is Leaf && modules[index].name == top ==> has_leaf(design, top, modules[index]),
        modules[index].body is Composite ==> has_composite(design, modules, modules[index]),
        forall|i: int, j: int|
            0 <= i < j < design.modules@.len() ==> chars_before(
                (#[trigger] design.modules@[i])@.name,
                (#[trigger] design.modules@[j])@.name,
            ),
{
    let kept = kept_places(modules, top, modules.len());
    let names = names_at(modules, kept);
    let (order, canonical) = choose|order: Seq<usize>, canonical: Map<Seq<char>, String>|
        {
            &&& #[trigger] is_text_order(names_at(modules, kept), order)
            &&& #[trigger] is_canonical(modules, top, modules.len() as int, canonical)
            &&& forall|i: int|
                0 <= i < kept.len() ==> (#[trigger] design.modules[i])@ == renamed(
                    modules[kept[order[i] as int]],
                    canonical,
                )
        };
    kept_are_places(modules, top, modules.len());
    assert forall|i: int, j: int| 0 <= i < j < design.modules@.len() implies chars_before(
        (#[trigger] design.modules@[i])@.name,
        (#[trigger] design.modules@[j])@.name,
    ) by {
        assert(design.modules[i]@.name == modules[kept[order[i] as int]].name);
        assert(design.modules[j]@.name == modules[kept[order[j] as int]].name);
        assert(order[i] < names.len() && order[j] < names.len());
        assert(texts_in_order(names, order[i], order[j]));
        if names[order[i] as int] == names[order[j] as int] {
            let (a, b) = (kept[order[i] as int], kept[order[j] as int]);
            text_order_distinct(names, order);
            assert(order[i] != order[j]);
            assert(a != b) by {
                if order[i] < order[j] {
                    assert(kept[order[i] as int] < kept[order[j] as int]);
                } else {
                    assert(kept[order[j] as int] < kept[order[i] as int]);
                }
            }
            if a < b {
                assert(modules[a].name != modules[b].name);
            } else {
                assert(modules[b].name != modules[a].name);
            }
        }
    }
    assert forall|j: int| 0 <= j < modules.len() && (#[trigger] modules[j]).body is Leaf implies canonical.contains_key(
        modules[j].name,
    ) && has_leaf(design, canonical[modules[j].name]@, modules[j]) by {
        leaf_is_there(top, target, modules, design, order, canonical, j);
    }
    if modules[index].body is Leaf {
        assert(has_leaf(design, canonical[modules[index].name]@, modules[index]));
        if modules[index].name == top {
            let d = kept_is_there(top, target, modules, design, order, canonical, index);
            assert(design.modules@[d]@.name == top);
        }
    } else {
        let d = kept_is_there(top, target, modules, design, order, canonical, index);
        match modules[index].body {
            BodyView::Composite(wanted, wires) => {
                match design.modules@[d]@.body {
                    BodyView::Composite(instances, nets) => {
                        assert forall|k: int, j: int|
                            0 <= k < instances.len() && 0 <= j < modules.len() && (#[trigger] modules[j]).name == (
                            #[trigger] wanted[k]).module && modules[j].body is Leaf implies has_leaf(
                            design,
                            instances[k].module,
                            modules[j],
                        ) by {
                            assert(canonical.contains_key(modules[j].name));
                            assert(instances[k].module == canonical[wanted[k].module]@);
                        }
                        assert forall|k: int| 0 <= k < instances.len() implies (#[trigger] instances[k]).name
                            == wanted[k].name by {}
                    },
                    _ => {},
                }
                assert(design.modules@[d]@.name == modules[index].name);
            },
            _ => {},
        }
    }
}

proof fn leaf_is_there(
    top: Seq<char>,
    target: Seq<char>,
    modules: Seq<RoutableModuleView>,
    design: RoutableDesign,
    order: Seq<usize>,
    canonical: Map<Seq<char>, String>,
    index: int,
)
    requires
        design.modules.len() == kept_places(modules, top, modules.len()).len(),
        is_text_order(names_at(modules, kept_places(modules, top, modules.len())), order),
        is_canonical(modules, top, modules.len() as int, canonical),
        forall|i: int|
            0 <= i < kept_places(modules, top, modules.len()).len() ==> (#[trigger] design.modules[i])@ == renamed(
                modules[kept_places(modules, top, modules.len())[order[i] as int]],
                canonical,
            ),
        names_differ(modules),
        0 <= index < modules.len(),
        modules[index].body is Leaf,
    ensures
        canonical.contains_key(modules[index].name),
        has_leaf(design, canonical[modules[index].name]@, modules[index]),
{
    let name = modules[index].name;
    assert(canonical.contains_key(name));
    let (own, kept) = choose|own: int, kept: int|
        {
            &&& 0 <= own < modules.len()
            &&& modules[own].name == name
            &&& #[trigger] stands_for(modules, top, own, kept)
            &&& canonical[name]@ == modules[kept].name
            &&& forall|later: int| own < later < modules.len() ==> (#[trigger] modules[later]).name != name
        };
    assert(own == index) by {
        if own < index {
            assert(modules[own].name != modules[index].name);
        } else if own > index {
            assert(modules[index].name != modules[own].name);
        }
    }
    if repeats(modules, top, index) {
        assert(is_first_shape(modules, index, kept));
        if repeats(modules, top, kept) {
            let earlier = choose|earlier: int|
                0 <= earlier < kept && #[trigger] same_shape(modules[earlier], modules[kept]);
            assert(same_shape(modules[earlier], modules[index]));
        }
    }
    let d = kept_is_there(top, target, modules, design, order, canonical, kept);
    assert(design.modules@[d]@.name == modules[kept].name);
}

} // verus!
