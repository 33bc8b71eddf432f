use vstd::prelude::*;
use crate::config::{
    match_spec, pulldown_entry, pullup_entry, Config, EntryV, PartRule, RuleV,
};
use crate::netlist::{
    comp_views, keep_comps, remove_components_spec, Component, ComponentV, NetList, NetListV,
};
use crate::strutil::{contains_str, has_text, str_eq, views_of};

verus! {

/// A decoupling capacitor: part type `C`, exactly two pins, one on a
/// power net and one on a ground net.
pub open spec fn is_decoupling_cap(c: ComponentV, vcc: Seq<Seq<char>>, gnd: Seq<Seq<char>>) -> bool {
    &&& c.part_id == "C"@
    &&& c.pins.len() == 2
    &&& exists|i: int| 0 <= i < c.pins.len() && has_text(vcc, c.pins[i].net)
    &&& exists|i: int| 0 <= i < c.pins.len() && has_text(gnd, c.pins[i].net)
}

/// The reference designators of the decoupling capacitors in `cs`, in
/// order.
pub open spec fn decoupling_refs(cs: Seq<ComponentV>, vcc: Seq<Seq<char>>, gnd: Seq<Seq<char>>) -> Seq<
    Seq<char>,
>
    decreases cs.len(),
{
    if cs.len() == 0 {
        Seq::empty()
    } else {
        let rest = decoupling_refs(cs.drop_first(), vcc, gnd);
        if is_decoupling_cap(cs[0], vcc, gnd) {
            seq![cs[0].ref_des] + rest
        } else {
            rest
        }
    }
}

/// What the decoupling-capacitor pass leaves of the netlist.
pub open spec fn remove_decoupling_caps_spec(
    nl: NetListV,
    vcc: Seq<Seq<char>>,
    gnd: Seq<Seq<char>>,
) -> NetListV {
    remove_components_spec(nl, decoupling_refs(nl.components, vcc, gnd))
}

/// Decide whether one component is a decoupling capacitor.
fn cap_like(comp: &Component, vcc_nets: &Vec<String>, gnd_nets: &Vec<String>) -> (r:
    bool)
    ensures
        r == is_decoupling_cap(comp@, views_of(vcc_nets@), views_of(gnd_nets@)),
{
    let ghost vcc = views_of(vcc_nets@);
    let ghost gnd = views_of(gnd_nets@);
    if !(str_eq(comp.part_id.as_str(), "C") && comp.pins.len() == 2) {
        return false;
    }
    let v0 = contains_str(vcc_nets, comp.pins[0].net.as_str());
    let v1 = contains_str(vcc_nets, comp.pins[1].net.as_str());
    let g0 = contains_str(gnd_nets, comp.pins[0].net.as_str());
    let g1 = contains_str(gnd_nets, comp.pins[1].net.as_str());
    let r = (v0 || v1) && (g0 || g1);
    proof {
        assert(comp@.pins[0].net == comp.pins@[0].net@);
        assert(comp@.pins[1].net == comp.pins@[1].net@);
        if r {
            if v0 {
                assert(has_text(vcc, comp@.pins[0].net));
            } else {
                assert(has_text(vcc, comp@.pins[1].net));
            }
            if g0 {
                assert(has_text(gnd, comp@.pins[0].net));
            } else {
                assert(has_text(gnd, comp@.pins[1].net));
            }
            assert(is_decoupling_cap(comp@, vcc, gnd));
        } else if is_decoupling_cap(comp@, vcc, gnd) {
            let a = choose|j: int| 0 <= j < comp@.pins.len() && has_text(vcc, comp@.pins[j].net);
            let b = choose|j: int| 0 <= j < comp@.pins.len() && has_text(gnd, comp@.pins[j].net);
            assert(a == 0 || a == 1);
            assert(b == 0 || b == 1);
            assert(false);
        }
    }
    r
}

/// Remove every decoupling capacitor: a two-pin `C` component wired to a
/// power net and a ground net.
#[verifier::loop_isolation(false)]
pub fn remove_decoupling_caps(netlist: &mut NetList, vcc_nets: &Vec<String>, gnd_nets: &Vec<String>)
    ensures
        final(netlist)@ == remove_decoupling_caps_spec(
            old(netlist)@,
            views_of(vcc_nets@),
            views_of(gnd_nets@),
        ),
{
    let ghost vcc = views_of(vcc_nets@);
    let ghost gnd = views_of(gnd_nets@);
    let ghost comps = netlist@.components;
    let mut refs: Vec<String> = Vec::new();
    let mut i: usize = 0;
    proof {
        assert(comps.skip(0) =~= comps);
        assert(views_of(refs@) =~= Seq::<Seq<char>>::empty());
        assert(views_of(refs@) + decoupling_refs(comps, vcc, gnd) =~= decoupling_refs(
            comps,
            vcc,
            gnd,
        ));
    }
    while i < netlist.components.len()
        invariant
            i <= comps.len(),
            netlist == old(netlist),
            decoupling_refs(comps, vcc, gnd) == views_of(refs@) + decoupling_refs(
                comps.skip(i as int),
                vcc,
                gnd,
            ),
        decreases comps.len() - i,
    {
        let comp = &netlist.components[i];
        proof {
            assert(comp@ == comps.skip(i as int)[0]);
            assert(comps.skip(i as int).drop_first() =~= comps.skip(i + 1));
        }
        let is_cap = cap_like(comp, vcc_nets, gnd_nets);
        if is_cap {
            let ghost prev = refs@;
            refs.push(comp.ref_des.clone());
            proof {
                assert(views_of(refs@) =~= views_of(prev).push(comp@.ref_des));
                assert(views_of(prev).push(comp@.ref_des) + decoupling_refs(
                    comps.skip(i + 1),
                    vcc,
                    gnd,
                ) =~= views_of(prev) + (seq![comp@.ref_des] + decoupling_refs(
                    comps.skip(i + 1),
                    vcc,
                    gnd,
                )));
            }
        }
        i += 1;
    }
    proof {
        assert(comps.skip(comps.len() as int) =~= Seq::<ComponentV>::empty());
        assert(views_of(refs@) + Seq::<Seq<char>>::empty() =~= views_of(refs@));
    }
    netlist.remove_components(&refs);
}

/// The reference designators of the components of `cs` without pins.
pub open spec fn pinless_refs(cs: Seq<ComponentV>) -> Seq<Seq<char>>
    decreases cs.len(),
{
    if cs.len() == 0 {
        Seq::empty()
    } else {
        let rest = pinless_refs(cs.drop_first());
        if cs[0].pins.len() == 0 {
            seq![cs[0].ref_des] + rest
        } else {
            rest
        }
    }
}

/// What the pinless-component pass leaves of the netlist.
pub open spec fn remove_pinless_components_spec(nl: NetListV) -> NetListV {
    remove_components_spec(nl, pinless_refs(nl.components))
}

/// Remove every component that has no pins at all.
#[verifier::loop_isolation(false)]
pub fn remove_pinless_components(netlist: &mut NetList)
    ensures
        final(netlist)@ == remove_pinless_components_spec(old(netlist)@),
{
    let ghost comps = netlist@.components;
    let mut refs: Vec<String> = Vec::new();
    let mut i: usize = 0;
    proof {
        assert(comps.skip(0) =~= comps);
        assert(views_of(refs@) =~= Seq::<Seq<char>>::empty());
        assert(views_of(refs@) + pinless_refs(comps) =~= pinless_refs(comps));
    }
    while i < netlist.components.len()
        invariant
            i <= comps.len(),
            netlist == old(netlist),
            pinless_refs(comps) == views_of(refs@) + pinless_refs(comps.skip(i as int)),
        decreases comps.len() - i,
    {
        let comp = &netlist.components[i];
        proof {
            assert(comp@ == comps.skip(i as int)[0]);
            assert(comps.skip(i as int).drop_first() =~= comps.skip(i + 1));
        }
        if comp.pins.len() == 0 {
            let ghost prev = refs@;
            refs.push(comp.ref_des.clone());
            proof {
                assert(views_of(refs@) =~= views_of(prev).push(comp@.ref_des));
                assert(views_of(prev).push(comp@.ref_des) + pinless_refs(comps.skip(i + 1))
                    =~= views_of(prev) + (seq![comp@.ref_des] + pinless_refs(comps.skip(i + 1))));
            }
        }
        i += 1;
    }
    proof {
        assert(comps.skip(comps.len() as int) =~= Seq::<ComponentV>::empty());
        assert(views_of(refs@) + Seq::<Seq<char>>::empty() =~= views_of(refs@));
    }
    netlist.remove_components(&refs);
}

/// The reference designators of the components of `cs` whose rule lookup
/// yields `Skip`.
pub open spec fn skipped_refs(cs: Seq<ComponentV>, cfg: Seq<EntryV>) -> Seq<Seq<char>>
    decreases cs.len(),
{
    if cs.len() == 0 {
        Seq::empty()
    } else {
        let rest = skipped_refs(cs.drop_first(), cfg);
        if match_spec(cfg, cs[0].ref_des, cs[0].part_id) == Some(RuleV::Skip) {
            seq![cs[0].ref_des] + rest
        } else {
            rest
        }
    }
}

/// What the skip pass leaves of the netlist.
pub open spec fn remove_skipped_components_spec(nl: NetListV, cfg: Seq<EntryV>) -> NetListV {
    remove_components_spec(nl, skipped_refs(nl.components, cfg))
}

/// Remove every component whose configured rule is `Skip`.
#[verifier::loop_isolation(false)]
pub fn remove_skipped_components(netlist: &mut NetList, config: &Config)
    ensures
        final(netlist)@ == remove_skipped_components_spec(old(netlist)@, config@),
{
    let ghost comps = netlist@.components;
    let mut refs: Vec<String> = Vec::new();
    let mut i: usize = 0;
    proof {
        assert(comps.skip(0) =~= comps);
        assert(views_of(refs@) =~= Seq::<Seq<char>>::empty());
        assert(views_of(refs@) + skipped_refs(comps, config@) =~= skipped_refs(comps, config@));
    }
    while i < netlist.components.len()
        invariant
            i <= comps.len(),
            netlist == old(netlist),
            skipped_refs(comps, config@) == views_of(refs@) + skipped_refs(
                comps.skip(i as int),
                config@,
            ),
        decreases comps.len() - i,
    {
        let comp = &netlist.components[i];
        proof {
            assert(comp@ == comps.skip(i as int)[0]);
            assert(comps.skip(i as int).drop_first() =~= comps.skip(i + 1));
        }
        let skip_it = match config.match_component(comp) {
            Some(PartRule::Skip) => true,
            _ => false,
        };
        if skip_it {
            let ghost prev = refs@;
            refs.push(comp.ref_des.clone());
            proof {
                assert(views_of(refs@) =~= views_of(prev).push(comp@.ref_des));
                assert(views_of(prev).push(comp@.ref_des) + skipped_refs(
                    comps.skip(i + 1),
                    config@,
                ) =~= views_of(prev) + (seq![comp@.ref_des] + skipped_refs(
                    comps.skip(i + 1),
                    config@,
                )));
            }
        }
        i += 1;
    }
    proof {
        assert(comps.skip(comps.len() as int) =~= Seq::<ComponentV>::empty());
        assert(views_of(refs@) + Seq::<Seq<char>>::empty() =~= views_of(refs@));
    }
    netlist.remove_components(&refs);
}

/// The rules that passive inference appends for one component: pull-ups
/// for a two-pin resistor with one leg on power, pull-downs for one with a
/// leg on ground, each on the opposite pin.
pub open spec fn passive_entries(c: ComponentV, vcc: Seq<Seq<char>>, gnd: Seq<Seq<char>>) -> Seq<
    EntryV,
> {
    if c.part_id == "R"@ && c.pins.len() == 2 {
        let e1: Seq<EntryV> = if has_text(vcc, c.pins[0].net) && !has_text(gnd, c.pins[1].net) {
            seq![pullup_entry(c.ref_des, c.pins[1].num)]
        } else {
            Seq::empty()
        };
        let e2: Seq<EntryV> = if has_text(vcc, c.pins[1].net) && !has_text(gnd, c.pins[0].net) {
            seq![pullup_entry(c.ref_des, c.pins[0].num)]
        } else {
            Seq::empty()
        };
        let e3: Seq<EntryV> = if has_text(gnd, c.pins[0].net) {
            seq![pulldown_entry(c.ref_des, c.pins[1].num)]
        } else {
            Seq::empty()
        };
        let e4: Seq<EntryV> = if has_text(gnd, c.pins[1].net) {
            seq![pulldown_entry(c.ref_des, c.pins[0].num)]
        } else {
            Seq::empty()
        };
        e1 + e2 + e3 + e4
    } else {
        Seq::empty()
    }
}

/// The rules that passive inference appends over a whole component list.
pub open spec fn inferred_entries(
    cs: Seq<ComponentV>,
    vcc: Seq<Seq<char>>,
    gnd: Seq<Seq<char>>,
) -> Seq<EntryV>
    decreases cs.len(),
{
    if cs.len() == 0 {
        Seq::empty()
    } else {
        passive_entries(cs[0], vcc, gnd) + inferred_entries(cs.drop_first(), vcc, gnd)
    }
}

/// Classify the remaining two-pin resistors against the power and ground
/// nets and append the synthesized pull-up and pull-down rules.
#[verifier::loop_isolation(false)]
pub fn add_pullups_and_pulldowns(
    config: &mut Config,
    netlist: &NetList,
    vcc_nets: &Vec<String>,
    gnd_nets: &Vec<String>,
)
    ensures
        final(config)@ == old(config)@ + inferred_entries(
            netlist@.components,
            views_of(vcc_nets@),
            views_of(gnd_nets@),
        ),
{
    let ghost vcc = views_of(vcc_nets@);
    let ghost gnd = views_of(gnd_nets@);
    let ghost comps = netlist@.components;
    let ghost base = config@;
    let mut i: usize = 0;
    proof {
        assert(comps.skip(0) =~= comps);
        assert(base + Seq::<EntryV>::empty() =~= base);
    }
    while i < netlist.components.len()
        invariant
            i <= comps.len(),
            config@ + inferred_entries(comps.skip(i as int), vcc, gnd) == base
                + inferred_entries(comps, vcc, gnd),
        decreases comps.len() - i,
    {
        let comp = &netlist.components[i];
        proof {
            assert(comp@ == comps.skip(i as int)[0]);
            assert(comps.skip(i as int).drop_first() =~= comps.skip(i + 1));
        }
        let ghost at_entry = config@;
        if str_eq(comp.part_id.as_str(), "R") && comp.pins.len() == 2 {
            proof {
                assert(comp@.pins[0].net == comp.pins@[0].net@);
                assert(comp@.pins[1].net == comp.pins@[1].net@);
                assert(comp@.pins[0].num == comp.pins@[0].num@);
                assert(comp@.pins[1].num == comp.pins@[1].num@);
            }
            if contains_str(vcc_nets, comp.pins[0].net.as_str()) && !contains_str(
                gnd_nets,
                comp.pins[1].net.as_str(),
            ) {
                config.add_pullup(comp.ref_des.as_str(), comp.pins[1].num.as_str());
            }
            if contains_str(vcc_nets, comp.pins[1].net.as_str()) && !contains_str(
                gnd_nets,
                comp.pins[0].net.as_str(),
            ) {
                config.add_pullup(comp.ref_des.as_str(), comp.pins[0].num.as_str());
            }
            if contains_str(gnd_nets, comp.pins[0].net.as_str()) {
                config.add_pulldown(comp.ref_des.as_str(), comp.pins[1].num.as_str());
            }
            if contains_str(gnd_nets, comp.pins[1].net.as_str()) {
                config.add_pulldown(comp.ref_des.as_str(), comp.pins[0].num.as_str());
            }
        }
        proof {
            assert(config@ =~= at_entry + passive_entries(comp@, vcc, gnd));
            assert(at_entry + passive_entries(comp@, vcc, gnd) + inferred_entries(
                comps.skip(i + 1),
                vcc,
                gnd,
            ) =~= at_entry + (passive_entries(comp@, vcc, gnd) + inferred_entries(
                comps.skip(i + 1),
                vcc,
                gnd,
            )));
        }
        i += 1;
    }
    proof {
        assert(comps.skip(comps.len() as int) =~= Seq::<ComponentV>::empty());
        assert(config@ + Seq::<EntryV>::empty() =~= config@);
    }
}

/// Every component that `keep_comps` keeps stood in the list before the
/// removal, and its reference designator is not among the removed.
pub proof fn lemma_keep_comps_elements(s: Seq<ComponentV>, refs: Seq<Seq<char>>)
    ensures
        forall|i: int|
            0 <= i < keep_comps(s, refs).len() ==> (exists|j: int|
                0 <= j < s.len() && s[j] == #[trigger] keep_comps(s, refs)[i]) && !has_text(
                refs,
                keep_comps(s, refs)[i].ref_des,
            ),
    decreases s.len(),
{
    if s.len() > 0 {
        lemma_keep_comps_elements(s.drop_first(), refs);
        let k = keep_comps(s, refs);
        let kr = keep_comps(s.drop_first(), refs);
        assert forall|i: int|
            0 <= i < k.len() implies (exists|j: int| 0 <= j < s.len() && s[j] == #[trigger] k[i])
            && !has_text(refs, k[i].ref_des) by {
            if has_text(refs, s[0].ref_des) {
                assert(k == kr);
                let j = choose|j: int| 0 <= j < s.drop_first().len() && s.drop_first()[j] == kr[i];
                assert(s[j + 1] == k[i]);
            } else {
                assert(k == seq![s[0]] + kr);
                if i == 0 {
                    assert(s[0] == k[0]);
                } else {
                    assert(k[i] == kr[i - 1]);
                    let j = choose|j: int|
                        0 <= j < s.drop_first().len() && s.drop_first()[j] == kr[i - 1];
                    assert(s[j + 1] == k[i]);
                }
            }
        }
    }
}

/// A component whose rule lookup yields `Skip` is listed for removal by
/// the skip pass.
pub proof fn lemma_skip_listed(s: Seq<ComponentV>, cfg: Seq<EntryV>, j: int)
    requires
        0 <= j < s.len(),
        match_spec(cfg, s[j].ref_des, s[j].part_id) == Some(RuleV::Skip),
    ensures
        has_text(skipped_refs(s, cfg), s[j].ref_des),
    decreases s.len(),
{
    let refs = skipped_refs(s, cfg);
    let rest = skipped_refs(s.drop_first(), cfg);
    if j == 0 {
        assert(refs[0] == s[0].ref_des);
    } else {
        assert(s.drop_first()[j - 1] == s[j as int]);
        lemma_skip_listed(s.drop_first(), cfg, j - 1);
        let w = choose|w: int| 0 <= w < rest.len() && rest[w] == s[j as int].ref_des;
        if match_spec(cfg, s[0].ref_des, s[0].part_id) == Some(RuleV::Skip) {
            assert(refs == seq![s[0].ref_des] + rest);
            assert(refs[w + 1] == s[j as int].ref_des);
        } else {
            assert(refs == rest);
        }
    }
}

/// No rule that passive inference appends is `Skip`.
pub proof fn lemma_inferred_non_skip(cs: Seq<ComponentV>, vcc: Seq<Seq<char>>, gnd: Seq<Seq<char>>)
    ensures
        forall|i: int|
            0 <= i < inferred_entries(cs, vcc, gnd).len() ==> #[trigger] inferred_entries(
                cs,
                vcc,
                gnd,
            )[i].rule != RuleV::Skip,
    decreases cs.len(),
{
    if cs.len() > 0 {
        lemma_inferred_non_skip(cs.drop_first(), vcc, gnd);
        let p = passive_entries(cs[0], vcc, gnd);
        assert forall|i: int| 0 <= i < p.len() implies p[i].rule != RuleV::Skip by {
            if cs[0].part_id == "R"@ && cs[0].pins.len() == 2 {
                assert(p[i].rule is Module);
            }
        }
    }
}

} // verus!
