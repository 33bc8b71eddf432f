use vstd::prelude::*;
use crate::strutil::{contains_str, has_text, views_of};

verus! {

/// The electrical direction recorded on a pin or a node: an input, an
/// output, or anything else (bidirectional, passive, unknown).
#[derive(Debug, Clone, Copy, PartialEq, Eq, Structural)]
pub enum PinType {
    Input,
    Output,
    Unknown,
}

/// One pin of a component: its number, its symbolic name, the name of the
/// net it connects to, and its direction tag.
#[derive(Debug, Clone)]
pub struct Pin {
    pub num: String,
    pub name: String,
    pub net: String,
    pub typ: PinType,
}

/// One attachment point on a net: which component and pin sit there, and
/// the direction recorded for that attachment.
#[derive(Debug, Clone)]
pub struct Node {
    pub ref_des: String,
    pub pin: String,
    pub typ: PinType,
}

/// A named electrical equivalence class and its attachment points.
#[derive(Debug, Clone)]
pub struct Net {
    pub name: String,
    pub nodes: Vec<Node>,
}

/// A schematic component: reference designator, part type, and pins.
#[derive(Debug, Clone)]
pub struct Component {
    pub ref_des: String,
    pub part_id: String,
    pub pins: Vec<Pin>,
}

/// The whole netlist: ordered components and ordered nets.
#[derive(Debug, Clone)]
pub struct NetList {
    pub components: Vec<Component>,
    pub nets: Vec<Net>,
}

/// Mathematical image of a `Pin`.
pub struct PinV {
    pub num: Seq<char>,
    pub name: Seq<char>,
    pub net: Seq<char>,
    pub typ: PinType,
}

/// Mathematical image of a `Node`.
pub struct NodeV {
    pub ref_des: Seq<char>,
    pub pin: Seq<char>,
    pub typ: PinType,
}

/// Mathematical image of a `Net`.
pub struct NetV {
    pub name: Seq<char>,
    pub nodes: Seq<NodeV>,
}

/// Mathematical image of a `Component`.
pub struct ComponentV {
    pub ref_des: Seq<char>,
    pub part_id: Seq<char>,
    pub pins: Seq<PinV>,
}

/// Mathematical image of a `NetList`.
pub struct NetListV {
    pub components: Seq<ComponentV>,
    pub nets: Seq<NetV>,
}

impl View for Pin {
    type V = PinV;

    open spec fn view(&self) -> PinV {
        PinV { num: self.num@, name: self.name@, net: self.net@, typ: self.typ }
    }
}

impl View for Node {
    type V = NodeV;

    open spec fn view(&self) -> NodeV {
        NodeV { ref_des: self.ref_des@, pin: self.pin@, typ: self.typ }
    }
}

/// The mathematical images of a sequence of pins.
pub open spec fn pin_views(s: Seq<Pin>) -> Seq<PinV> {
    s.map_values(|p: Pin| p@)
}

/// The mathematical images of a sequence of nodes.
pub open spec fn node_views(s: Seq<Node>) -> Seq<NodeV> {
    s.map_values(|n: Node| n@)
}

/// The mathematical images of a sequence of nets.
pub open spec fn net_views(s: Seq<Net>) -> Seq<NetV> {
    s.map_values(|n: Net| n@)
}

/// The mathematical images of a sequence of components.
pub open spec fn comp_views(s: Seq<Component>) -> Seq<ComponentV> {
    s.map_values(|c: Component| c@)
}

impl View for Net {
    type V = NetV;

    open spec fn view(&self) -> NetV {
        NetV { name: self.name@, nodes: node_views(self.nodes@) }
    }
}

impl View for Component {
    type V = ComponentV;

    open spec fn view(&self) -> ComponentV {
        ComponentV {
            ref_des: self.ref_des@,
            part_id: self.part_id@,
            pins: pin_views(self.pins@),
        }
    }
}

impl View for NetList {
    type V = NetListV;

    open spec fn view(&self) -> NetListV {
        NetListV { components: comp_views(self.components@), nets: net_views(self.nets@) }
    }
}

/// The components of `s` whose reference designators do not stand in
/// `refs`, in order.
pub open spec fn keep_comps(s: Seq<ComponentV>, refs: Seq<Seq<char>>) -> Seq<ComponentV>
    decreases s.len(),
{
    if s.len() == 0 {
        Seq::empty()
    } else {
        let rest = keep_comps(s.drop_first(), refs);
        if has_text(refs, s[0].ref_des) {
            rest
        } else {
            seq![s[0]] + rest
        }
    }
}

/// The nodes of `s` whose reference designators do not stand in `refs`,
/// in order.
pub open spec fn keep_nodes(s: Seq<NodeV>, refs: Seq<Seq<char>>) -> Seq<NodeV>
    decreases s.len(),
{
    if s.len() == 0 {
        Seq::empty()
    } else {
        let rest = keep_nodes(s.drop_first(), refs);
        if has_text(refs, s[0].ref_des) {
            rest
        } else {
            seq![s[0]] + rest
        }
    }
}

/// The nets of `s` with the nodes of removed components dropped; a net
/// left without any node is dropped with them.
pub open spec fn clean_nets(s: Seq<NetV>, refs: Seq<Seq<char>>) -> Seq<NetV>
    decreases s.len(),
{
    if s.len() == 0 {
        Seq::empty()
    } else {
        let kept = keep_nodes(s[0].nodes, refs);
        let rest = clean_nets(s.drop_first(), refs);
        if kept.len() == 0 {
            rest
        } else {
            seq![NetV { name: s[0].name, nodes: kept }] + rest
        }
    }
}

/// A node stands for an attachment of an existing pin: some component
/// carries the node's reference designator and has a pin with the node's
/// pin number.
pub open spec fn node_backed(nd: NodeV, comps: Seq<ComponentV>) -> bool {
    exists|k: int, p: int|
        0 <= k < comps.len() && 0 <= p < comps[k].pins.len() && comps[k].ref_des == nd.ref_des
            && comps[k].pins[p].num == nd.pin
}

/// The netlist's structural invariant: every attachment point on every
/// net refers to an existing pin on an existing component.
pub open spec fn netlist_well_formed(nl: NetListV) -> bool {
    forall|i: int, j: int|
        0 <= i < nl.nets.len() && 0 <= j < nl.nets[i].nodes.len() ==> node_backed(
            #[trigger] nl.nets[i].nodes[j],
            nl.components,
        )
}

/// What removing a set of components leaves: the named components are
/// gone, their attachment points are gone from every net, and a net left
/// with no attachment points is gone with them. Order is kept throughout.
pub open spec fn remove_components_spec(nl: NetListV, refs: Seq<Seq<char>>) -> NetListV {
    NetListV {
        components: keep_comps(nl.components, refs),
        nets: clean_nets(nl.nets, refs),
    }
}

impl NetList {
    /// Remove the components whose reference designators stand in `refs`,
    /// with their attachment points and the nets that thereby empty.
    #[verifier::loop_isolation(false)]
    pub fn remove_components(&mut self, refs: &Vec<String>)
        ensures
            final(self)@ == remove_components_spec(old(self)@, views_of(refs@)),
    {
        let ghost rv = views_of(refs@);
        let ghost orig = self@.components;
        let mut kept: Vec<Component> = Vec::new();
        while self.components.len() > 0
            invariant
                rv == views_of(refs@),
                self@.nets == old(self)@.nets,
                keep_comps(orig, rv) == comp_views(kept@) + keep_comps(
                    comp_views(self.components@),
                    rv,
                ),
            decreases self.components@.len(),
        {
            let ghost vold = self.components@;
            let c = self.components.remove(0);
            proof {
                assert(c@ == comp_views(vold)[0]);
                assert(self.components@ =~= vold.subrange(1, vold.len() as int));
                assert(comp_views(self.components@) =~= comp_views(vold).drop_first());
            }
            let ghost prev = kept@;
            if !contains_str(refs, c.ref_des.as_str()) {
                kept.push(c);
                proof {
                    assert(comp_views(kept@) =~= comp_views(prev).push(c@));
                    assert(comp_views(prev).push(c@) + keep_comps(
                        comp_views(self.components@),
                        rv,
                    ) =~= comp_views(prev) + (seq![c@] + keep_comps(
                        comp_views(self.components@),
                        rv,
                    )));
                }
            }
        }
        proof {
            assert(comp_views(self.components@).len() == 0);
            assert(keep_comps(comp_views(self.components@), rv) == Seq::<ComponentV>::empty());
            assert(comp_views(kept@) + Seq::<ComponentV>::empty() =~= comp_views(kept@));
        }
        self.components = kept;
        let mut kept_nets: Vec<Net> = Vec::new();
        let ghost onets = old(self)@.nets;
        proof {
            assert(net_views(kept_nets@) =~= Seq::<NetV>::empty());
            assert(net_views(self.nets@) == onets);
            assert(net_views(kept_nets@) + clean_nets(onets, rv) =~= clean_nets(onets, rv));
        }
        while self.nets.len() > 0
            invariant
                rv == views_of(refs@),
                self@.components == keep_comps(orig, rv),
                clean_nets(onets, rv) == net_views(kept_nets@) + clean_nets(
                    net_views(self.nets@),
                    rv,
                ),
            decreases self.nets@.len(),
        {
            let ghost vold = self.nets@;
            let mut net = self.nets.remove(0);
            proof {
                assert(net@ == net_views(vold)[0]);
                assert(self.nets@ =~= vold.subrange(1, vold.len() as int));
                assert(net_views(self.nets@) =~= net_views(vold).drop_first());
            }
            let ghost old_nodes = net@.nodes;
            let mut kept_nodes: Vec<Node> = Vec::new();
            while net.nodes.len() > 0
                invariant
                    rv == views_of(refs@),
                    net.name@ == net_views(vold)[0].name,
                    keep_nodes(old_nodes, rv) == node_views(kept_nodes@) + keep_nodes(
                        node_views(net.nodes@),
                        rv,
                    ),
                decreases net.nodes@.len(),
            {
                let ghost nold = net.nodes@;
                let nd = net.nodes.remove(0);
                proof {
                    assert(nd@ == node_views(nold)[0]);
                    assert(net.nodes@ =~= nold.subrange(1, nold.len() as int));
                    assert(node_views(net.nodes@) =~= node_views(nold).drop_first());
                }
                let ghost prev = kept_nodes@;
                if !contains_str(refs, nd.ref_des.as_str()) {
                    kept_nodes.push(nd);
                    proof {
                        assert(node_views(kept_nodes@) =~= node_views(prev).push(nd@));
                        assert(node_views(prev).push(nd@) + keep_nodes(
                            node_views(net.nodes@),
                            rv,
                        ) =~= node_views(prev) + (seq![nd@] + keep_nodes(
                            node_views(net.nodes@),
                            rv,
                        )));
                    }
                }
            }
            proof {
                assert(keep_nodes(node_views(net.nodes@), rv) == Seq::<NodeV>::empty());
                assert(node_views(kept_nodes@) + Seq::<NodeV>::empty() =~= node_views(
                    kept_nodes@,
                ));
            }
            net.nodes = kept_nodes;
            proof {
                let head = net_views(vold)[0];
                assert(node_views(net.nodes@) == keep_nodes(head.nodes, rv));
                assert(net@ == NetV { name: head.name, nodes: keep_nodes(head.nodes, rv) });
                if keep_nodes(head.nodes, rv).len() == 0 {
                    assert(clean_nets(net_views(vold), rv) == clean_nets(
                        net_views(vold).drop_first(),
                        rv,
                    ));
                } else {
                    assert(clean_nets(net_views(vold), rv) == seq![net@] + clean_nets(
                        net_views(vold).drop_first(),
                        rv,
                    ));
                }
            }
            let ghost prev = kept_nets@;
            if net.nodes.len() > 0 {
                kept_nets.push(net);
                proof {
                    assert(net_views(kept_nets@) =~= net_views(prev).push(kept_nets@.last()@));
                    assert(net_views(prev).push(kept_nets@.last()@) + clean_nets(
                        net_views(self.nets@),
                        rv,
                    ) =~= net_views(prev) + (seq![kept_nets@.last()@] + clean_nets(
                        net_views(self.nets@),
                        rv,
                    )));
                }
            }
        }
        proof {
            assert(clean_nets(net_views(self.nets@), rv) == Seq::<NetV>::empty());
            assert(net_views(kept_nets@) + Seq::<NetV>::empty() =~= net_views(kept_nets@));
        }
        self.nets = kept_nets;
        proof {
            assert(self@ == remove_components_spec(old(self)@, rv));
        }
    }
}

} // verus!
