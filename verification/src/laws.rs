//! The properties this library promises of the whole pipeline, stated and
//! proved over the specification functions that the executable functions
//! are verified against.
use vstd::prelude::*;
use crate::config::{
    first_dup_idx, lemma_match_non_skip, lemma_match_spec_append, match_spec, pats_contain,
    pulldown_entry, pullup_entry, EntryV, ErrorV, RuleV,
};
use crate::netlist::{
    clean_nets, keep_comps, keep_nodes, netlist_well_formed, node_backed, remove_components_spec,
    ComponentV, NetListV, NetV, NodeV, PinV,
};
use crate::passes::{
    decoupling_refs, inferred_entries, is_decoupling_cap, lemma_inferred_non_skip,
    lemma_keep_comps_elements, lemma_skip_listed, passive_entries, pinless_refs,
    remove_decoupling_caps_spec, remove_pinless_components_spec, remove_skipped_components_spec,
    skipped_refs,
};
use crate::strutil::has_text;
use crate::verilog::{
    augmented_config, cleaned_netlist, collect_comps_spec, collect_mod_ports_spec, comp_identity_eq,
    comp_nets_spec, find_pin_idx, lemma_resolve_comps_preserves, nets_shape_eq, resolve_comps_spec,
    resolve_pins_spec, verilog_name, wires_text, write_verilog_spec, CompV, ModPortV,
};

verus! {

proof fn lemma_cap_listed(s: Seq<ComponentV>, vcc: Seq<Seq<char>>, gnd: Seq<Seq<char>>, j: int)
    requires
        0 <= j < s.len(),
        is_decoupling_cap(s[j], vcc, gnd),
    ensures
        has_text(decoupling_refs(s, vcc, gnd), s[j].ref_des),
    decreases s.len(),
{
    let refs = decoupling_refs(s, vcc, gnd);
    let rest = decoupling_refs(s.drop_first(), vcc, gnd);
    if j == 0 {
        assert(refs[0] == s[0].ref_des);
    } else {
        assert(s.drop_first()[j - 1] == s[j as int]);
        lemma_cap_listed(s.drop_first(), vcc, gnd, j - 1);
        let w = choose|w: int| 0 <= w < rest.len() && rest[w] == s[j as int].ref_des;
        if is_decoupling_cap(s[0], vcc, gnd) {
            assert(refs == seq![s[0].ref_des] + rest);
            assert(refs[w + 1] == s[j as int].ref_des);
        } else {
            assert(refs == rest);
        }
    }
}

/// A two-pin capacitor with one pin on a power net and the other on a
/// ground net does not survive the decoupling pass: no component bearing
/// its reference designator remains, so no later stage — rule matching
/// included — ever sees it.
pub proof fn decoupling_cap_removed(
    nl: NetListV,
    vcc: Seq<Seq<char>>,
    gnd: Seq<Seq<char>>,
    j: int,
)
    requires
        0 <= j < nl.components.len(),
        is_decoupling_cap(nl.components[j], vcc, gnd),
    ensures
        forall|i: int|
            0 <= i < remove_decoupling_caps_spec(nl, vcc, gnd).components.len()
                ==> #[trigger] remove_decoupling_caps_spec(nl, vcc, gnd).components[i].ref_des
                != nl.components[j].ref_des,
{
    lemma_cap_listed(nl.components, vcc, gnd, j);
    lemma_keep_comps_elements(nl.components, decoupling_refs(nl.components, vcc, gnd));
}

/// A component whose rule lookup yields `Skip` does not survive the skip
/// pass: no component bearing its reference designator remains in the
/// netlist that direction resolution and emission walk.
pub proof fn skip_component_removed(nl: NetListV, cfg: Seq<EntryV>, j: int)
    requires
        0 <= j < nl.components.len(),
        match_spec(cfg, nl.components[j].ref_des, nl.components[j].part_id) == Some(RuleV::Skip),
    ensures
        forall|i: int|
            0 <= i < remove_skipped_components_spec(nl, cfg).components.len()
                ==> #[trigger] remove_skipped_components_spec(nl, cfg).components[i].ref_des
                != nl.components[j].ref_des,
{
    lemma_skip_listed(nl.components, cfg, j);
    lemma_keep_comps_elements(nl.components, skipped_refs(nl.components, cfg));
}

proof fn lemma_insts_from(todo: Seq<ComponentV>, cfg: Seq<EntryV>, acc: Seq<CompV>)
    ensures
        collect_comps_spec(todo, cfg, acc) matches Ok(cs) ==> {
            &&& cs.len() >= acc.len()
            &&& forall|k: int| 0 <= k < acc.len() ==> #[trigger] cs[k] == acc[k]
            &&& forall|k: int|
                acc.len() <= k < cs.len() ==> exists|i: int|
                    0 <= i < todo.len() && (#[trigger] cs[k]).name == verilog_name(
                        todo[i].ref_des,
                    )
        },
    decreases todo.len(),
{
    if todo.len() > 0 {
        match match_spec(cfg, todo[0].ref_des, todo[0].part_id) {
            None => {},
            Some(RuleV::Module(m, pins)) => {
                match crate::verilog::comp_nets_spec(todo[0], pins) {
                    Err(_) => {},
                    Ok(nets) => {
                        let acc2 = acc.push(
                            CompV { name: verilog_name(todo[0].ref_des), module: m, nets },
                        );
                        lemma_insts_from(todo.drop_first(), cfg, acc2);
                        match collect_comps_spec(todo.drop_first(), cfg, acc2) {
                            Err(_) => {},
                            Ok(cs) => {
                                assert forall|k: int|
                                    acc.len() <= k < cs.len() implies exists|i: int|
                                    0 <= i < todo.len() && (#[trigger] cs[k]).name == verilog_name(
                                    todo[i].ref_des,
                                ) by {
                                    if k >= acc2.len() {
                                        let i = choose|i: int|
                                            0 <= i < todo.drop_first().len() && cs[k].name
                                                == verilog_name(todo.drop_first()[i].ref_des);
                                        assert(todo[i + 1] == todo.drop_first()[i]);
                                    } else {
                                        assert(cs[k] == acc2[k]);
                                        assert(cs[k].name == verilog_name(todo[0].ref_des));
                                    }
                                }
                            },
                        }
                    },
                }
            },
            Some(_) => {
                lemma_insts_from(todo.drop_first(), cfg, acc);
                match collect_comps_spec(todo.drop_first(), cfg, acc) {
                    Err(_) => {},
                    Ok(cs) => {
                        assert forall|k: int|
                            acc.len() <= k < cs.len() implies exists|i: int|
                            0 <= i < todo.len() && (#[trigger] cs[k]).name == verilog_name(
                            todo[i].ref_des,
                        ) by {
                            let i = choose|i: int|
                                0 <= i < todo.drop_first().len() && cs[k].name == verilog_name(
                                    todo.drop_first()[i].ref_des,
                                );
                            assert(todo[i + 1] == todo.drop_first()[i]);
                        }
                    },
                }
            },
        }
    }
}

/// Every emitted instantiation is named after a component of the list
/// emission walks: nothing is instantiated that is not in the netlist.
/// With `skip_component_removed`, a skipped component — absent from that
/// list under its reference designator — yields no instantiation of its
/// own.
pub proof fn instantiations_from_components(todo: Seq<ComponentV>, cfg: Seq<EntryV>)
    ensures
        collect_comps_spec(todo, cfg, Seq::empty()) matches Ok(cs) ==> forall|k: int|
            0 <= k < cs.len() ==> exists|i: int|
                0 <= i < todo.len() && (#[trigger] cs[k]).name == verilog_name(todo[i].ref_des),
{
    lemma_insts_from(todo, cfg, Seq::empty());
}

proof fn lemma_passive_in_inferred(
    cs: Seq<ComponentV>,
    vcc: Seq<Seq<char>>,
    gnd: Seq<Seq<char>>,
    j: int,
    m: int,
)
    requires
        0 <= j < cs.len(),
        0 <= m < passive_entries(cs[j], vcc, gnd).len(),
    ensures
        exists|k: int|
            0 <= k < inferred_entries(cs, vcc, gnd).len() && #[trigger] inferred_entries(
                cs,
                vcc,
                gnd,
            )[k] == passive_entries(cs[j], vcc, gnd)[m],
    decreases cs.len(),
{
    let whole = inferred_entries(cs, vcc, gnd);
    if j == 0 {
        assert(whole[m] == passive_entries(cs[0], vcc, gnd)[m]);
    } else {
        assert(cs.drop_first()[j - 1] == cs[j as int]);
        lemma_passive_in_inferred(cs.drop_first(), vcc, gnd, j - 1, m);
        let rest = inferred_entries(cs.drop_first(), vcc, gnd);
        let k = choose|k: int|
            0 <= k < rest.len() && rest[k] == passive_entries(cs[j as int], vcc, gnd)[m];
        assert(whole[passive_entries(cs[0], vcc, gnd).len() + k] == rest[k]);
    }
}

/// A two-pin resistor with exactly one pin on the power net, whose other
/// pin is on neither power nor ground, gets a synthesized `pullup` rule on
/// that other pin, keyed by its reference designator.
pub proof fn pullup_rule_synthesized(
    cs: Seq<ComponentV>,
    vcc: Seq<Seq<char>>,
    gnd: Seq<Seq<char>>,
    j: int,
    a: int,
    b: int,
)
    requires
        0 <= j < cs.len(),
        cs[j].part_id == "R"@,
        cs[j].pins.len() == 2,
        (a == 0 && b == 1) || (a == 1 && b == 0),
        has_text(vcc, cs[j].pins[a].net),
        !has_text(vcc, cs[j].pins[b].net),
        !has_text(gnd, cs[j].pins[b].net),
    ensures
        exists|k: int|
            0 <= k < inferred_entries(cs, vcc, gnd).len() && #[trigger] inferred_entries(
                cs,
                vcc,
                gnd,
            )[k] == pullup_entry(cs[j].ref_des, cs[j].pins[b].num),
{
    let p = passive_entries(cs[j], vcc, gnd);
    assert(p[0] == pullup_entry(cs[j].ref_des, cs[j].pins[b].num));
    lemma_passive_in_inferred(cs, vcc, gnd, j, 0);
}

/// A two-pin resistor with a pin on the ground net gets a synthesized
/// `pulldown` rule on the opposite pin, keyed by its reference designator.
pub proof fn pulldown_rule_synthesized(
    cs: Seq<ComponentV>,
    vcc: Seq<Seq<char>>,
    gnd: Seq<Seq<char>>,
    j: int,
    a: int,
    b: int,
)
    requires
        0 <= j < cs.len(),
        cs[j].part_id == "R"@,
        cs[j].pins.len() == 2,
        (a == 0 && b == 1) || (a == 1 && b == 0),
        has_text(gnd, cs[j].pins[a].net),
    ensures
        exists|k: int|
            0 <= k < inferred_entries(cs, vcc, gnd).len() && #[trigger] inferred_entries(
                cs,
                vcc,
                gnd,
            )[k] == pulldown_entry(cs[j].ref_des, cs[j].pins[b].num),
{
    let c = cs[j];
    let p = passive_entries(c, vcc, gnd);
    let e1: Seq<EntryV> = if has_text(vcc, c.pins[0].net) && !has_text(gnd, c.pins[1].net) {
        seq![pullup_entry(c.ref_des, c.pins[1].num)]
    } else {
        Seq::empty()
    };
    let e2: Seq<EntryV> = if has_text(vcc, c.pins[1].net) && !has_text(gnd, c.pins[0].net) {
        seq![pullup_entry(c.ref_des, c.pins[0].num)]
    } else {
        Seq::empty()
    };
    let e3: Seq<EntryV> = if has_text(gnd, c.pins[0].net) {
        seq![pulldown_entry(c.ref_des, c.pins[1].num)]
    } else {
        Seq::empty()
    };
    if a == 0 {
        let idx = e1.len() + e2.len();
        assert(p[idx as int] == pulldown_entry(c.ref_des, c.pins[1].num));
        lemma_passive_in_inferred(cs, vcc, gnd, j, idx as int);
    } else {
        let idx = e1.len() + e2.len() + e3.len();
        assert(p[idx as int] == pulldown_entry(c.ref_des, c.pins[0].num));
        lemma_passive_in_inferred(cs, vcc, gnd, j, idx as int);
    }
}

/// What the duplicate-pattern check decides: loading fails exactly when
/// some new entry repeats a pattern already present — in the entries
/// loaded before or earlier in the same source — and the reported entry is
/// the first such; otherwise every pattern is new and loading succeeds.
pub proof fn first_dup_properties(base: Seq<EntryV>, new: Seq<EntryV>)
    ensures
        first_dup_idx(base, new) == -1 ==> forall|j: int|
            0 <= j < new.len() ==> !pats_contain(base + new.take(j), new[j].pattern),
        first_dup_idx(base, new) >= 0 ==> {
            let k = first_dup_idx(base, new);
            &&& k < new.len()
            &&& pats_contain(base + new.take(k), new[k].pattern)
            &&& forall|j: int| 0 <= j < k ==> !pats_contain(base + new.take(j), new[j].pattern)
        },
    decreases new.len(),
{
    if new.len() > 0 {
        assert(base + new.take(0) =~= base);
        if !pats_contain(base, new[0].pattern) {
            first_dup_properties(base.push(new[0]), new.drop_first());
            let r = first_dup_idx(base.push(new[0]), new.drop_first());
            assert forall|j: int|
                0 <= j < new.drop_first().len() implies (base.push(new[0]) + new.drop_first().take(
                j,
            )) =~= base + new.take(j + 1) && new.drop_first()[j] == new[j + 1] by {
                assert(base.push(new[0]) + new.drop_first().take(j) =~= base + new.take(j + 1));
            }
            if r == -1 {
                assert forall|j: int|
                    0 <= j < new.len() implies !pats_contain(base + new.take(j), new[j].pattern) by {
                    if j > 0 {
                        assert(!pats_contain(
                            base.push(new[0]) + new.drop_first().take(j - 1),
                            new.drop_first()[j - 1].pattern,
                        ));
                    }
                }
            } else {
                let k = first_dup_idx(base, new);
                assert(k == 1 + r);
                assert(pats_contain(base + new.take(k), new[k].pattern));
                assert forall|j: int|
                    0 <= j < k implies !pats_contain(base + new.take(j), new[j].pattern) by {
                    if j > 0 {
                        assert(!pats_contain(
                            base.push(new[0]) + new.drop_first().take(j - 1),
                            new.drop_first()[j - 1].pattern,
                        ));
                    }
                }
            }
        }
    }
}

proof fn lemma_keep_comps_none(s: Seq<ComponentV>)
    ensures
        keep_comps(s, Seq::empty()) == s,
    decreases s.len(),
{
    if s.len() > 0 {
        lemma_keep_comps_none(s.drop_first());
        assert(seq![s[0]] + s.drop_first() =~= s);
    }
}

proof fn lemma_keep_nodes_none(s: Seq<NodeV>)
    ensures
        keep_nodes(s, Seq::empty()) == s,
    decreases s.len(),
{
    if s.len() > 0 {
        lemma_keep_nodes_none(s.drop_first());
        assert(seq![s[0]] + s.drop_first() =~= s);
    }
}

proof fn lemma_clean_nets_none(s: Seq<NetV>)
    requires
        forall|i: int| 0 <= i < s.len() ==> (#[trigger] s[i]).nodes.len() > 0,
    ensures
        clean_nets(s, Seq::empty()) == s,
    decreases s.len(),
{
    if s.len() > 0 {
        lemma_keep_nodes_none(s[0].nodes);
        assert forall|i: int|
            0 <= i < s.drop_first().len() implies (#[trigger] s.drop_first()[i]).nodes.len()
            > 0 by {
            assert(s.drop_first()[i] == s[i + 1]);
        }
        lemma_clean_nets_none(s.drop_first());
        assert(NetV { name: s[0].name, nodes: s[0].nodes } == s[0]);
        assert(seq![s[0]] + s.drop_first() =~= s);
    }
}

/// Removing an empty set of components leaves a netlist whose nets all
/// still hold a node unchanged.
proof fn lemma_remove_none(nl: NetListV)
    requires
        forall|i: int| 0 <= i < nl.nets.len() ==> (#[trigger] nl.nets[i]).nodes.len() > 0,
    ensures
        remove_components_spec(nl, Seq::empty()) == nl,
{
    lemma_keep_comps_none(nl.components);
    lemma_clean_nets_none(nl.nets);
    assert(remove_components_spec(nl, Seq::empty()) == NetListV {
        components: nl.components,
        nets: nl.nets,
    });
    assert(NetListV { components: nl.components, nets: nl.nets } == nl);
}

/// Every net the node cleanup leaves holds at least one node.
proof fn lemma_clean_nets_nonempty(s: Seq<NetV>, refs: Seq<Seq<char>>)
    ensures
        forall|i: int|
            0 <= i < clean_nets(s, refs).len() ==> (#[trigger] clean_nets(s, refs)[i]).nodes.len()
                > 0,
    decreases s.len(),
{
    if s.len() > 0 {
        lemma_clean_nets_nonempty(s.drop_first(), refs);
        let kept = keep_nodes(s[0].nodes, refs);
        let rest = clean_nets(s.drop_first(), refs);
        assert forall|i: int|
            0 <= i < clean_nets(s, refs).len() implies (#[trigger] clean_nets(
            s,
            refs,
        )[i]).nodes.len() > 0 by {
            if kept.len() == 0 {
                assert(clean_nets(s, refs)[i] == rest[i]);
            } else if i > 0 {
                assert(clean_nets(s, refs)[i] == rest[i - 1]);
            }
        }
    }
}

proof fn lemma_no_caps_no_refs(cs: Seq<ComponentV>, vcc: Seq<Seq<char>>, gnd: Seq<Seq<char>>)
    requires
        forall|j: int| 0 <= j < cs.len() ==> !is_decoupling_cap(#[trigger] cs[j], vcc, gnd),
    ensures
        decoupling_refs(cs, vcc, gnd) == Seq::<Seq<char>>::empty(),
    decreases cs.len(),
{
    if cs.len() > 0 {
        assert forall|j: int|
            0 <= j < cs.drop_first().len() implies !is_decoupling_cap(
            #[trigger] cs.drop_first()[j],
            vcc,
            gnd,
        ) by {
            assert(cs.drop_first()[j] == cs[j + 1]);
        }
        lemma_no_caps_no_refs(cs.drop_first(), vcc, gnd);
    }
}

proof fn lemma_no_pinless_no_refs(cs: Seq<ComponentV>)
    requires
        forall|j: int| 0 <= j < cs.len() ==> (#[trigger] cs[j]).pins.len() > 0,
    ensures
        pinless_refs(cs) == Seq::<Seq<char>>::empty(),
    decreases cs.len(),
{
    if cs.len() > 0 {
        assert forall|j: int|
            0 <= j < cs.drop_first().len() implies (#[trigger] cs.drop_first()[j]).pins.len()
            > 0 by {
            assert(cs.drop_first()[j] == cs[j + 1]);
        }
        lemma_no_pinless_no_refs(cs.drop_first());
    }
}

proof fn lemma_no_skip_no_refs(cs: Seq<ComponentV>, cfg: Seq<EntryV>)
    requires
        forall|j: int|
            0 <= j < cs.len() ==> match_spec(cfg, (#[trigger] cs[j]).ref_des, cs[j].part_id)
                != Some(RuleV::Skip),
    ensures
        skipped_refs(cs, cfg) == Seq::<Seq<char>>::empty(),
    decreases cs.len(),
{
    if cs.len() > 0 {
        assert forall|j: int|
            0 <= j < cs.drop_first().len() implies match_spec(
            cfg,
            (#[trigger] cs.drop_first()[j]).ref_des,
            cs.drop_first()[j].part_id,
        ) != Some(RuleV::Skip) by {
            assert(cs.drop_first()[j] == cs[j + 1]);
        }
        lemma_no_skip_no_refs(cs.drop_first(), cfg);
    }
}

proof fn lemma_pinless_listed(s: Seq<ComponentV>, j: int)
    requires
        0 <= j < s.len(),
        s[j].pins.len() == 0,
    ensures
        has_text(pinless_refs(s), s[j].ref_des),
    decreases s.len(),
{
    let refs = pinless_refs(s);
    let rest = pinless_refs(s.drop_first());
    if j == 0 {
        assert(refs[0] == s[0].ref_des);
    } else {
        assert(s.drop_first()[j - 1] == s[j as int]);
        lemma_pinless_listed(s.drop_first(), j - 1);
        let w = choose|w: int| 0 <= w < rest.len() && rest[w] == s[j as int].ref_des;
        if s[0].pins.len() == 0 {
            assert(refs == seq![s[0].ref_des] + rest);
            assert(refs[w + 1] == s[j as int].ref_des);
        } else {
            assert(refs == rest);
        }
    }
}

/// A component with the same identity is a decoupling capacitor exactly
/// when the other is.
proof fn lemma_identity_cap(a: ComponentV, b: ComponentV, vcc: Seq<Seq<char>>, gnd: Seq<Seq<char>>)
    requires
        comp_identity_eq(a, b),
    ensures
        is_decoupling_cap(a, vcc, gnd) == is_decoupling_cap(b, vcc, gnd),
{
    if is_decoupling_cap(a, vcc, gnd) {
        let x = choose|i: int| 0 <= i < a.pins.len() && has_text(vcc, a.pins[i].net);
        let y = choose|i: int| 0 <= i < a.pins.len() && has_text(gnd, a.pins[i].net);
        assert(b.pins[x].net == a.pins[x].net);
        assert(b.pins[y].net == a.pins[y].net);
        assert(is_decoupling_cap(b, vcc, gnd));
    }
    if is_decoupling_cap(b, vcc, gnd) {
        let x = choose|i: int| 0 <= i < b.pins.len() && has_text(vcc, b.pins[i].net);
        let y = choose|i: int| 0 <= i < b.pins.len() && has_text(gnd, b.pins[i].net);
        assert(a.pins[x].net == b.pins[x].net);
        assert(a.pins[y].net == b.pins[y].net);
        assert(is_decoupling_cap(a, vcc, gnd));
    }
}

/// Passive inference reads only a component's identity.
proof fn lemma_identity_passive(
    a: ComponentV,
    b: ComponentV,
    vcc: Seq<Seq<char>>,
    gnd: Seq<Seq<char>>,
)
    requires
        comp_identity_eq(a, b),
    ensures
        passive_entries(a, vcc, gnd) == passive_entries(b, vcc, gnd),
{
    if a.part_id == "R"@ && a.pins.len() == 2 {
        assert(a.pins[0].net == b.pins[0].net);
        assert(a.pins[1].net == b.pins[1].net);
        assert(a.pins[0].num == b.pins[0].num);
        assert(a.pins[1].num == b.pins[1].num);
    }
}

proof fn lemma_identity_inferred(
    a: Seq<ComponentV>,
    b: Seq<ComponentV>,
    vcc: Seq<Seq<char>>,
    gnd: Seq<Seq<char>>,
)
    requires
        a.len() == b.len(),
        forall|i: int| 0 <= i < a.len() ==> comp_identity_eq(#[trigger] a[i], b[i]),
    ensures
        inferred_entries(a, vcc, gnd) == inferred_entries(b, vcc, gnd),
    decreases a.len(),
{
    if a.len() > 0 {
        lemma_identity_passive(a[0], b[0], vcc, gnd);
        assert forall|i: int|
            0 <= i < a.drop_first().len() implies comp_identity_eq(
            #[trigger] a.drop_first()[i],
            b.drop_first()[i],
        ) by {
            assert(a.drop_first()[i] == a[i + 1]);
            assert(b.drop_first()[i] == b[i + 1]);
        }
        lemma_identity_inferred(a.drop_first(), b.drop_first(), vcc, gnd);
    }
}

/// Once the pipeline has cleaned a netlist and resolved its boundary
/// directions, running the cleanup passes again removes nothing, and
/// running passive inference again changes what no rule lookup answers:
/// cleanup and inference are idempotent once applied. (Stability of the
/// direction-resolution pass itself is not claimed here.)
pub proof fn cleanup_and_inference_idempotent(
    nl: NetListV,
    cfg0: Seq<EntryV>,
    nl4: NetListV,
    ports: Seq<ModPortV>,
)
    requires
        collect_mod_ports_spec(cleaned_netlist(nl, cfg0), augmented_config(nl, cfg0)) == Ok::<
            (NetListV, Seq<ModPortV>),
            ErrorV,
        >((nl4, ports)),
    ensures
        cleaned_netlist(nl4, augmented_config(nl, cfg0)) == nl4,
        forall|rd: Seq<char>, pt: Seq<char>|
            #[trigger] match_spec(augmented_config(nl4, augmented_config(nl, cfg0)), rd, pt)
                == match_spec(augmented_config(nl, cfg0), rd, pt),
{
    let vcc = seq!["VCC"@];
    let gnd = seq!["GND"@];
    let nl0 = nl;
    let nl1 = remove_decoupling_caps_spec(nl0, vcc, gnd);
    let nl2 = remove_pinless_components_spec(nl1);
    let nl3 = cleaned_netlist(nl, cfg0);
    let cfg2 = augmented_config(nl, cfg0);
    let ext = inferred_entries(nl3.components, vcc, gnd);

    // Unpack the resolution result and its preservation facts.
    let res = resolve_comps_spec(Seq::empty(), nl3.components, nl3.nets, cfg2, Seq::empty());
    assert(res is Ok);
    lemma_resolve_comps_preserves(Seq::empty(), nl3.components, nl3.nets, cfg2, Seq::empty());
    match res {
        Err(_) => {
            assert(false);
        },
        Ok(t) => {
            assert(NetListV { components: t.0, nets: t.1 } == nl4);
            assert(nl4.components == t.0 && nl4.nets == t.1);
        },
    }
    assert(nl4.components.len() == nl3.components.len());
    assert(nets_shape_eq(nl3.nets, nl4.nets));
    assert forall|i: int|
        0 <= i < nl3.components.len() implies comp_identity_eq(
        nl3.components[i],
        #[trigger] nl4.components[i],
    ) by {
        match res {
            Err(_) => {},
            Ok(t) => {
                assert(comp_identity_eq(nl3.components[i], t.0[0 + i]));
                assert(t.0[0 + i] == t.0[i]);
            },
        }
    }

    // Survivors of each pass are values of the list before it.
    lemma_keep_comps_elements(nl0.components, decoupling_refs(nl0.components, vcc, gnd));
    lemma_keep_comps_elements(nl1.components, pinless_refs(nl1.components));
    lemma_keep_comps_elements(nl2.components, skipped_refs(nl2.components, cfg0));

    // No component of the cleaned netlist is a decoupling capacitor, is
    // pinless, or matches `Skip`.
    assert forall|i: int|
        0 <= i < nl3.components.len() implies !is_decoupling_cap(
        #[trigger] nl3.components[i],
        vcc,
        gnd,
    ) && nl3.components[i].pins.len() > 0 by {
        let c = nl3.components[i];
        let j2 = choose|j: int| 0 <= j < nl2.components.len() && nl2.components[j] == c;
        let j1 = choose|j: int|
            0 <= j < nl1.components.len() && nl1.components[j] == nl2.components[j2];
        let j0 = choose|j: int|
            0 <= j < nl0.components.len() && nl0.components[j] == nl1.components[j1];
        if is_decoupling_cap(c, vcc, gnd) {
            lemma_cap_listed(nl0.components, vcc, gnd, j0);
            assert(false);
        }
        if c.pins.len() == 0 {
            lemma_pinless_listed(nl1.components, j1);
            assert(false);
        }
    }
    assert forall|i: int|
        0 <= i < nl3.components.len() implies match_spec(
        cfg2,
        (#[trigger] nl3.components[i]).ref_des,
        nl3.components[i].part_id,
    ) != Some(RuleV::Skip) by {
        let c = nl3.components[i];
        let j2 = choose|j: int| 0 <= j < nl2.components.len() && nl2.components[j] == c;
        if match_spec(cfg0, c.ref_des, c.part_id) == Some(RuleV::Skip) {
            lemma_skip_listed(nl2.components, cfg0, j2);
            assert(false);
        }
        lemma_match_spec_append(cfg0, ext, c.ref_des, c.part_id);
        if match_spec(cfg0, c.ref_des, c.part_id) is None {
            lemma_inferred_non_skip(nl3.components, vcc, gnd);
            lemma_match_non_skip(ext, c.ref_des, c.part_id);
        }
    }

    // The same holds of the resolved netlist, whose components have the
    // same identities.
    assert forall|i: int|
        0 <= i < nl4.components.len() implies !is_decoupling_cap(
        #[trigger] nl4.components[i],
        vcc,
        gnd,
    ) && nl4.components[i].pins.len() > 0 && match_spec(
        cfg2,
        nl4.components[i].ref_des,
        nl4.components[i].part_id,
    ) != Some(RuleV::Skip) by {
        lemma_identity_cap(nl3.components[i], nl4.components[i], vcc, gnd);
        assert(!is_decoupling_cap(nl3.components[i], vcc, gnd));
        assert(match_spec(cfg2, nl3.components[i].ref_des, nl3.components[i].part_id) != Some(
            RuleV::Skip,
        ));
    }

    // Its nets all still hold a node: the cleanup passes dropped the empty
    // ones and resolution kept every net's shape.
    lemma_clean_nets_nonempty(nl2.nets, skipped_refs(nl2.components, cfg0));
    assert forall|i: int|
        0 <= i < nl4.nets.len() implies (#[trigger] nl4.nets[i]).nodes.len() > 0 by {
        assert(nl3.nets[i].nodes.len() > 0);
    }

    // So each pass, run again, removes nothing.
    lemma_no_caps_no_refs(nl4.components, vcc, gnd);
    lemma_remove_none(nl4);
    assert(remove_decoupling_caps_spec(nl4, vcc, gnd) == nl4);
    lemma_no_pinless_no_refs(nl4.components);
    assert(remove_pinless_components_spec(nl4) == nl4);
    lemma_no_skip_no_refs(nl4.components, cfg2);
    assert(remove_skipped_components_spec(nl4, cfg2) == nl4);
    assert(cleaned_netlist(nl4, cfg2) == nl4);

    // Inference appends the same entries again, and the duplicates shadow
    // nothing: every lookup answers as before.
    lemma_identity_inferred(nl3.components, nl4.components, vcc, gnd);
    assert(inferred_entries(nl4.components, vcc, gnd) == ext);
    assert(augmented_config(nl4, cfg2) == cfg2 + ext);
    assert forall|rd: Seq<char>, pt: Seq<char>|
        #[trigger] match_spec(augmented_config(nl4, cfg2), rd, pt) == match_spec(
        cfg2,
        rd,
        pt,
    ) by {
        lemma_match_spec_append(cfg2, ext, rd, pt);
        if match_spec(cfg2, rd, pt) is None {
            lemma_match_spec_append(cfg0, ext, rd, pt);
            assert(match_spec(ext, rd, pt) is None);
        }
    }
}

/// Two configurations that answer every lookup alike drive direction
/// resolution alike.
proof fn lemma_match_eq_resolve(
    done: Seq<ComponentV>,
    todo: Seq<ComponentV>,
    nets: Seq<NetV>,
    cfg_a: Seq<EntryV>,
    cfg_b: Seq<EntryV>,
    acc: Seq<ModPortV>,
)
    requires
        forall|rd: Seq<char>, pt: Seq<char>|
            #[trigger] match_spec(cfg_a, rd, pt) == match_spec(cfg_b, rd, pt),
    ensures
        resolve_comps_spec(done, todo, nets, cfg_a, acc) == resolve_comps_spec(
            done,
            todo,
            nets,
            cfg_b,
            acc,
        ),
    decreases todo.len(),
{
    if todo.len() > 0 {
        assert(match_spec(cfg_a, todo[0].ref_des, todo[0].part_id) == match_spec(
            cfg_b,
            todo[0].ref_des,
            todo[0].part_id,
        ));
        match match_spec(cfg_a, todo[0].ref_des, todo[0].part_id) {
            Some(RuleV::External(pins)) => {
                match resolve_pins_spec(todo[0], nets, pins, acc) {
                    Err(_) => {},
                    Ok(t) => {
                        lemma_match_eq_resolve(
                            done.push(t.0),
                            todo.drop_first(),
                            t.1,
                            cfg_a,
                            cfg_b,
                            t.2,
                        );
                    },
                }
            },
            _ => {
                lemma_match_eq_resolve(done.push(todo[0]), todo.drop_first(), nets, cfg_a, cfg_b, acc);
            },
        }
    }
}

proof fn lemma_find_pin_idx_congruence(pa: Seq<PinV>, pb: Seq<PinV>, pn: Seq<char>)
    requires
        pa.len() == pb.len(),
        forall|p: int| 0 <= p < pa.len() ==> (#[trigger] pa[p]).num == pb[p].num,
    ensures
        find_pin_idx(pa, pn) == find_pin_idx(pb, pn),
    decreases pa.len(),
{
    if pa.len() > 0 {
        assert forall|p: int|
            0 <= p < pa.drop_first().len() implies (#[trigger] pa.drop_first()[p]).num
            == pb.drop_first()[p].num by {
            assert(pa.drop_first()[p] == pa[p + 1]);
            assert(pb.drop_first()[p] == pb[p + 1]);
        }
        lemma_find_pin_idx_congruence(pa.drop_first(), pb.drop_first(), pn);
    }
}

/// The nets a `Module` rule resolves to depend only on the component's
/// identity.
proof fn lemma_comp_nets_congruence(a: ComponentV, b: ComponentV, pins: Seq<Seq<char>>)
    requires
        comp_identity_eq(a, b),
    ensures
        comp_nets_spec(a, pins) == comp_nets_spec(b, pins),
    decreases pins.len(),
{
    if pins.len() > 0 {
        lemma_find_pin_idx_congruence(a.pins, b.pins, pins[0]);
        lemma_comp_nets_congruence(a, b, pins.drop_first());
        crate::verilog::lemma_find_pin_idx_bounds(a.pins, pins[0]);
        let pi = find_pin_idx(a.pins, pins[0]);
        if pi >= 0 {
            assert(a.pins[pi].net == b.pins[pi].net);
        }
    }
}

/// The instantiation list depends only on the components' identities and
/// on what the rule lookups answer.
proof fn lemma_collect_comps_congruence(
    a: Seq<ComponentV>,
    b: Seq<ComponentV>,
    cfg_a: Seq<EntryV>,
    cfg_b: Seq<EntryV>,
    acc: Seq<CompV>,
)
    requires
        a.len() == b.len(),
        forall|i: int| 0 <= i < a.len() ==> comp_identity_eq(#[trigger] a[i], b[i]),
        forall|rd: Seq<char>, pt: Seq<char>|
            #[trigger] match_spec(cfg_a, rd, pt) == match_spec(cfg_b, rd, pt),
    ensures
        collect_comps_spec(a, cfg_a, acc) == collect_comps_spec(b, cfg_b, acc),
    decreases a.len(),
{
    if a.len() > 0 {
        assert(comp_identity_eq(a[0], b[0]));
        assert(match_spec(cfg_a, a[0].ref_des, a[0].part_id) == match_spec(
            cfg_b,
            b[0].ref_des,
            b[0].part_id,
        ));
        assert forall|i: int|
            0 <= i < a.drop_first().len() implies comp_identity_eq(
            #[trigger] a.drop_first()[i],
            b.drop_first()[i],
        ) by {
            assert(a.drop_first()[i] == a[i + 1]);
            assert(b.drop_first()[i] == b[i + 1]);
        }
        match match_spec(cfg_a, a[0].ref_des, a[0].part_id) {
            None => {},
            Some(RuleV::Skip) => {
                lemma_collect_comps_congruence(a.drop_first(), b.drop_first(), cfg_a, cfg_b, acc);
            },
            Some(RuleV::External(_)) => {
                lemma_collect_comps_congruence(a.drop_first(), b.drop_first(), cfg_a, cfg_b, acc);
            },
            Some(RuleV::Module(m, pins)) => {
                lemma_comp_nets_congruence(a[0], b[0], pins);
                match comp_nets_spec(a[0], pins) {
                    Err(_) => {},
                    Ok(nets) => {
                        lemma_collect_comps_congruence(
                            a.drop_first(),
                            b.drop_first(),
                            cfg_a,
                            cfg_b,
                            acc.push(CompV { name: verilog_name(a[0].ref_des), module: m, nets }),
                        );
                    },
                }
            },
        }
    }
}

/// The `wire` section depends only on the nets' names.
proof fn lemma_wires_congruence(a: Seq<NetV>, b: Seq<NetV>)
    requires
        nets_shape_eq(a, b),
    ensures
        wires_text(a) == wires_text(b),
    decreases a.len(),
{
    if a.len() > 0 {
        assert forall|i: int|
            0 <= i < a.drop_first().len() implies (#[trigger] a.drop_first()[i]).name
            == b.drop_first()[i].name && a.drop_first()[i].nodes.len()
            == b.drop_first()[i].nodes.len() by {
            assert(a.drop_first()[i] == a[i + 1]);
            assert(b.drop_first()[i] == b[i + 1]);
        }
        lemma_wires_congruence(a.drop_first(), b.drop_first());
    }
}

/// Re-running the whole pipeline on the cleaned, direction-resolved
/// netlist, with the configuration as inference left it, emits the same
/// text — whatever that first outcome was — provided re-resolving that
/// netlist collects the same ports. Cleanup and inference are idempotent
/// outright (`cleanup_and_inference_idempotent`); the port proviso holds
/// of resolution runs that reach a fixed point.
pub proof fn pipeline_output_idempotent(
    nl: NetListV,
    cfg0: Seq<EntryV>,
    module_name: Seq<char>,
    nl4: NetListV,
    ports: Seq<ModPortV>,
)
    requires
        collect_mod_ports_spec(cleaned_netlist(nl, cfg0), augmented_config(nl, cfg0)) == Ok::<
            (NetListV, Seq<ModPortV>),
            ErrorV,
        >((nl4, ports)),
        collect_mod_ports_spec(nl4, augmented_config(nl, cfg0)) matches Ok(t) && t.1 == ports,
    ensures
        write_verilog_spec(nl4, module_name, augmented_config(nl, cfg0)) == write_verilog_spec(
            nl,
            module_name,
            cfg0,
        ),
{
    let cfg2 = augmented_config(nl, cfg0);
    let cfg3 = augmented_config(nl4, cfg2);
    cleanup_and_inference_idempotent(nl, cfg0, nl4, ports);
    assert(cleaned_netlist(nl4, cfg2) == nl4);
    assert(forall|rd: Seq<char>, pt: Seq<char>|
        #[trigger] match_spec(cfg3, rd, pt) == match_spec(cfg2, rd, pt));

    // Round two resolves the resolved netlist, under a configuration that
    // answers every lookup as before.
    lemma_match_eq_resolve(Seq::empty(), nl4.components, nl4.nets, cfg3, cfg2, Seq::empty());
    assert(collect_mod_ports_spec(nl4, cfg3) == collect_mod_ports_spec(nl4, cfg2));
    let res2 = resolve_comps_spec(Seq::empty(), nl4.components, nl4.nets, cfg2, Seq::empty());
    assert(res2 is Ok);
    lemma_resolve_comps_preserves(Seq::empty(), nl4.components, nl4.nets, cfg2, Seq::empty());
    match res2 {
        Err(_) => {
            assert(false);
        },
        Ok(t2) => {
            let nl5 = NetListV { components: t2.0, nets: t2.1 };
            assert(collect_mod_ports_spec(nl4, cfg2) == Ok::<
                (NetListV, Seq<ModPortV>),
                ErrorV,
            >((nl5, t2.2)));
            assert(t2.2 == ports);
            // What it resolves to keeps every component's identity and
            // every net's name, which is all that emission reads.
            assert forall|i: int|
                0 <= i < nl4.components.len() implies comp_identity_eq(
                #[trigger] nl4.components[i],
                nl5.components[i],
            ) by {
                assert(comp_identity_eq(nl4.components[i], t2.0[0 + i]));
                assert(t2.0[0 + i] == t2.0[i]);
            }
            lemma_collect_comps_congruence(
                nl5.components,
                nl4.components,
                cfg3,
                cfg2,
                Seq::empty(),
            );
            lemma_wires_congruence(nl5.nets, nl4.nets);
            match collect_comps_spec(nl4.components, cfg2, Seq::empty()) {
                Err(_) => {},
                Ok(comps) => {},
            }
        },
    }
}

proof fn lemma_keep_comps_keeps(s: Seq<ComponentV>, refs: Seq<Seq<char>>, j: int)
    requires
        0 <= j < s.len(),
        !has_text(refs, s[j].ref_des),
    ensures
        exists|i: int| 0 <= i < keep_comps(s, refs).len() && #[trigger] keep_comps(s, refs)[i]
            == s[j],
    decreases s.len(),
{
    let k = keep_comps(s, refs);
    let kr = keep_comps(s.drop_first(), refs);
    if j == 0 {
        assert(k[0] == s[0]);
    } else {
        assert(s.drop_first()[j - 1] == s[j as int]);
        lemma_keep_comps_keeps(s.drop_first(), refs, j - 1);
        let i = choose|i: int| 0 <= i < kr.len() && kr[i] == s[j as int];
        if has_text(refs, s[0].ref_des) {
            assert(k[i] == s[j as int]);
        } else {
            assert(k[i + 1] == kr[i]);
        }
    }
}

proof fn lemma_clean_nets_nodes(s: Seq<NetV>, refs: Seq<Seq<char>>)
    ensures
        forall|i: int, j: int|
            0 <= i < clean_nets(s, refs).len() && 0 <= j < clean_nets(s, refs)[i].nodes.len()
                ==> exists|a: int, b: int|
                0 <= a < s.len() && 0 <= b < s[a].nodes.len() && s[a].nodes[b]
                    == #[trigger] clean_nets(s, refs)[i].nodes[j] && !has_text(
                    refs,
                    clean_nets(s, refs)[i].nodes[j].ref_des,
                ),
    decreases s.len(),
{
    if s.len() > 0 {
        lemma_clean_nets_nodes(s.drop_first(), refs);
        lemma_keep_nodes_elements(s[0].nodes, refs);
        let kept = keep_nodes(s[0].nodes, refs);
        let rest = clean_nets(s.drop_first(), refs);
        let cn = clean_nets(s, refs);
        assert forall|i: int, j: int|
            0 <= i < cn.len() && 0 <= j < cn[i].nodes.len() implies exists|a: int, b: int|
            0 <= a < s.len() && 0 <= b < s[a].nodes.len() && s[a].nodes[b]
                == #[trigger] cn[i].nodes[j] && !has_text(refs, cn[i].nodes[j].ref_des) by {
            let from_rest = if kept.len() == 0 {
                i >= 0
            } else {
                i >= 1
            };
            if from_rest {
                let ri = if kept.len() == 0 {
                    i
                } else {
                    i - 1
                };
                assert(cn[i] == rest[ri]);
                let (a, b) = choose|a: int, b: int|
                    0 <= a < s.drop_first().len() && 0 <= b < s.drop_first()[a].nodes.len()
                        && s.drop_first()[a].nodes[b] == rest[ri].nodes[j] && !has_text(
                        refs,
                        rest[ri].nodes[j].ref_des,
                    );
                assert(s[a + 1] == s.drop_first()[a]);
                assert(s[a + 1].nodes[b] == cn[i].nodes[j]);
            } else {
                assert(cn[i].nodes == kept);
                let b = choose|b: int|
                    0 <= b < s[0].nodes.len() && s[0].nodes[b] == kept[j] && !has_text(
                        refs,
                        kept[j].ref_des,
                    );
                assert(s[0].nodes[b] == cn[i].nodes[j]);
            }
        }
    }
}

proof fn lemma_keep_nodes_elements(s: Seq<NodeV>, refs: Seq<Seq<char>>)
    ensures
        forall|j: int|
            0 <= j < keep_nodes(s, refs).len() ==> exists|b: int|
                0 <= b < s.len() && s[b] == #[trigger] keep_nodes(s, refs)[j] && !has_text(
                    refs,
                    keep_nodes(s, refs)[j].ref_des,
                ),
    decreases s.len(),
{
    if s.len() > 0 {
        lemma_keep_nodes_elements(s.drop_first(), refs);
        let k = keep_nodes(s, refs);
        let kr = keep_nodes(s.drop_first(), refs);
        assert forall|j: int|
            0 <= j < k.len() implies exists|b: int|
            0 <= b < s.len() && s[b] == #[trigger] k[j] && !has_text(refs, k[j].ref_des) by {
            if has_text(refs, s[0].ref_des) {
                assert(k == kr);
                let b = choose|b: int|
                    0 <= b < s.drop_first().len() && s.drop_first()[b] == kr[j] && !has_text(
                        refs,
                        kr[j].ref_des,
                    );
                assert(s[b + 1] == k[j]);
            } else {
                if j == 0 {
                    assert(s[0] == k[0]);
                } else {
                    assert(k[j] == kr[j - 1]);
                    let b = choose|b: int|
                        0 <= b < s.drop_first().len() && s.drop_first()[b] == kr[j - 1]
                            && !has_text(refs, kr[j - 1].ref_des);
                    assert(s[b + 1] == k[j]);
                }
            }
        }
    }
}

/// Removing components keeps the netlist's structural invariant: every
/// attachment point that stays refers to a pin on a component that stays,
/// since a node survives only when its component was not removed.
pub proof fn remove_components_preserves_wf(nl: NetListV, refs: Seq<Seq<char>>)
    requires
        netlist_well_formed(nl),
    ensures
        netlist_well_formed(remove_components_spec(nl, refs)),
{
    let out = remove_components_spec(nl, refs);
    lemma_clean_nets_nodes(nl.nets, refs);
    assert forall|i: int, j: int|
        0 <= i < out.nets.len() && 0 <= j < out.nets[i].nodes.len() implies node_backed(
        #[trigger] out.nets[i].nodes[j],
        out.components,
    ) by {
        let nd = out.nets[i].nodes[j];
        let (a, b) = choose|a: int, b: int|
            0 <= a < nl.nets.len() && 0 <= b < nl.nets[a].nodes.len() && nl.nets[a].nodes[b] == nd
                && !has_text(refs, nd.ref_des);
        assert(node_backed(nl.nets[a].nodes[b], nl.components));
        let (k, p) = choose|k: int, p: int|
            0 <= k < nl.components.len() && 0 <= p < nl.components[k].pins.len()
                && nl.components[k].ref_des == nd.ref_des && nl.components[k].pins[p].num
                == nd.pin;
        lemma_keep_comps_keeps(nl.components, refs, k);
        let i2 = choose|i2: int|
            0 <= i2 < keep_comps(nl.components, refs).len() && keep_comps(nl.components, refs)[i2]
                == nl.components[k];
        assert(out.components[i2].ref_des == nd.ref_des);
        assert(out.components[i2].pins[p].num == nd.pin);
    }
}

/// Direction resolution keeps the netlist's structural invariant: it
/// retags attachment points and pins but never adds, removes or renames
/// any.
pub proof fn resolution_preserves_wf(nl: NetListV, cfg: Seq<EntryV>, nl2: NetListV, ports: Seq<ModPortV>)
    requires
        netlist_well_formed(nl),
        collect_mod_ports_spec(nl, cfg) == Ok::<(NetListV, Seq<ModPortV>), ErrorV>((nl2, ports)),
    ensures
        netlist_well_formed(nl2),
{
    let res = resolve_comps_spec(Seq::empty(), nl.components, nl.nets, cfg, Seq::empty());
    assert(res is Ok);
    lemma_resolve_comps_preserves(Seq::empty(), nl.components, nl.nets, cfg, Seq::empty());
    match res {
        Err(_) => {
            assert(false);
        },
        Ok(t) => {
            assert(NetListV { components: t.0, nets: t.1 } == nl2);
            assert(nets_shape_eq(nl.nets, nl2.nets));
            assert forall|i: int, j: int|
                0 <= i < nl2.nets.len() && 0 <= j < nl2.nets[i].nodes.len() implies node_backed(
                #[trigger] nl2.nets[i].nodes[j],
                nl2.components,
            ) by {
                let nd = nl2.nets[i].nodes[j];
                assert(nl.nets[i].nodes[j].ref_des == nd.ref_des && nl.nets[i].nodes[j].pin
                    == nd.pin);
                assert(node_backed(nl.nets[i].nodes[j], nl.components));
                let (k, p) = choose|k: int, p: int|
                    0 <= k < nl.components.len() && 0 <= p < nl.components[k].pins.len()
                        && nl.components[k].ref_des == nd.ref_des && nl.components[k].pins[p].num
                        == nd.pin;
                assert(comp_identity_eq(nl.components[k], t.0[0 + k]));
                assert(t.0[0 + k] == nl2.components[k]);
                assert(nl2.components[k].ref_des == nd.ref_des);
                assert(nl2.components[k].pins[p].num == nd.pin);
            }
        },
    }
}

} // verus!
