use vstd::prelude::*;
use crate::config::{
    lemma_match_non_skip, lemma_match_spec_append, match_spec, Config, EntryV, Error, ErrorV,
    PartRule, RuleV,
};
use crate::netlist::{
    comp_views, net_views, node_views, pin_views, Component, ComponentV, Net, NetList, NetListV,
    NetV, Node, NodeV, Pin, PinType, PinV,
};
use crate::passes::{
    add_pullups_and_pulldowns, inferred_entries, lemma_inferred_non_skip,
    lemma_keep_comps_elements, lemma_skip_listed, remove_decoupling_caps,
    remove_decoupling_caps_spec, remove_pinless_components, remove_pinless_components_spec,
    remove_skipped_components, remove_skipped_components_spec, skipped_refs,
};
use crate::strutil::{ends_with, ends_with_spec, str_eq, views_of};

verus! {

/// One boundary port of the generated module: its escaped name, the
/// escaped name of the net it ties to, and its direction keyword.
#[derive(Debug, Clone)]
pub struct ModPort {
    pub name: String,
    pub net: String,
    pub typ: String,
}

/// Mathematical image of a `ModPort`.
pub struct ModPortV {
    pub name: Seq<char>,
    pub net: Seq<char>,
    pub typ: Seq<char>,
}

impl View for ModPort {
    type V = ModPortV;

    open spec fn view(&self) -> ModPortV {
        ModPortV { name: self.name@, net: self.net@, typ: self.typ@ }
    }
}

/// The mathematical images of a sequence of ports.
pub open spec fn port_views(s: Seq<ModPort>) -> Seq<ModPortV> {
    s.map_values(|p: ModPort| p@)
}

/// A character that may open a plain (unescaped) identifier.
pub open spec fn is_name_start(c: char) -> bool {
    ||| ('a' as u32) <= (c as u32) && (c as u32) <= ('z' as u32)
    ||| ('A' as u32) <= (c as u32) && (c as u32) <= ('Z' as u32)
    ||| c == '_'
}

/// A character that may continue a plain identifier.
pub open spec fn is_name_char(c: char) -> bool {
    ||| is_name_start(c)
    ||| ('0' as u32) <= (c as u32) && (c as u32) <= ('9' as u32)
    ||| c == '$'
}

/// A name that needs no escaping: a letter or underscore followed by
/// letters, digits, `$` and underscores.
pub open spec fn is_plain_name(s: Seq<char>) -> bool {
    s.len() > 0 && is_name_start(s[0]) && forall|i: int| 1 <= i < s.len() ==> is_name_char(s[i])
}

/// A name as it is emitted: unchanged when plain, otherwise in escaped
/// form, a backslash before and a separating blank after.
pub open spec fn verilog_name(s: Seq<char>) -> Seq<char> {
    if is_plain_name(s) {
        s
    } else {
        seq!['\\'] + s + seq![' ']
    }
}

/// Build the escaped form: a backslash, the name, a separating blank.
fn escaped_name(name: &str) -> (r: String)
    ensures
        r@ == seq!['\\'] + name@ + seq![' '],
{
    let mut out = String::new();
    out.append("\\");
    out.append(name);
    out.append(" ");
    proof {
        reveal_strlit("\\");
        reveal_strlit(" ");
        assert("\\"@ =~= seq!['\\']);
        assert(" "@ =~= seq![' ']);
        assert(out@ =~= seq!['\\'] + name@ + seq![' ']);
    }
    out
}

/// Escape a name for emission, as `verilog_name` describes.
#[verifier::loop_isolation(false)]
pub fn make_verilog_name(name: &str) -> (r: String)
    ensures
        r@ == verilog_name(name@),
{
    let len = name.unicode_len();
    if len == 0 {
        return escaped_name(name);
    }
    let c0 = name.get_char(0);
    let u0 = c0 as u32;
    let start_ok = (u0 >= ('a' as u32) && u0 <= ('z' as u32)) || (u0 >= ('A' as u32) && u0 <= (
    'Z' as u32)) || c0 == '_';
    if !start_ok {
        proof {
            assert(!is_name_start(name@[0]));
        }
        return escaped_name(name);
    }
    let mut i: usize = 1;
    while i < len
        invariant
            1 <= i <= len,
            forall|j: int| 1 <= j < i ==> is_name_char(name@[j]),
        decreases len - i,
    {
        let c = name.get_char(i);
        let u = c as u32;
        let ok = (u >= ('a' as u32) && u <= ('z' as u32)) || (u >= ('A' as u32) && u <= (
        'Z' as u32)) || c == '_' || (u >= ('0' as u32) && u <= ('9' as u32)) || c == '$';
        if !ok {
            proof {
                assert(!is_name_char(name@[i as int]));
                assert(!is_plain_name(name@));
            }
            return escaped_name(name);
        }
        i += 1;
    }
    proof {
        assert(is_plain_name(name@));
    }
    name.to_owned()
}

/// Index of the first pin of `pins` whose number reads `pn`, or `-1`.
pub open spec fn find_pin_idx(pins: Seq<PinV>, pn: Seq<char>) -> int
    decreases pins.len(),
{
    if pins.len() == 0 {
        -1
    } else if pins[0].num == pn {
        0
    } else {
        let r = find_pin_idx(pins.drop_first(), pn);
        if r < 0 {
            -1
        } else {
            1 + r
        }
    }
}

proof fn lemma_find_pin_idx_at(pins: Seq<PinV>, pn: Seq<char>, i: int)
    requires
        0 <= i <= pins.len(),
        forall|j: int| 0 <= j < i ==> pins[j].num != pn,
        i == pins.len() || pins[i].num == pn,
    ensures
        find_pin_idx(pins, pn) == if i == pins.len() {
            -1
        } else {
            i
        },
    decreases pins.len(),
{
    if pins.len() > 0 && i > 0 {
        lemma_find_pin_idx_at(pins.drop_first(), pn, i - 1);
    }
}

/// Find the first pin with this number.
fn find_pin(pins: &Vec<Pin>, pn: &str) -> (r: Option<usize>)
    ensures
        match r {
            Some(i) => i < pins@.len() && find_pin_idx(pin_views(pins@), pn@) == i,
            None => find_pin_idx(pin_views(pins@), pn@) == -1,
        },
{
    let mut i: usize = 0;
    while i < pins.len()
        invariant
            i <= pins@.len(),
            forall|j: int| 0 <= j < i ==> pin_views(pins@)[j].num != pn@,
        decreases pins@.len() - i,
    {
        if str_eq(pins[i].num.as_str(), pn) {
            proof {
                lemma_find_pin_idx_at(pin_views(pins@), pn@, i as int);
            }
            return Some(i);
        }
        i += 1;
    }
    proof {
        lemma_find_pin_idx_at(pin_views(pins@), pn@, pins@.len() as int);
    }
    None
}

/// Index of the first net of `nets` whose name reads `nm`, or `-1`.
pub open spec fn find_net_idx(nets: Seq<NetV>, nm: Seq<char>) -> int
    decreases nets.len(),
{
    if nets.len() == 0 {
        -1
    } else if nets[0].name == nm {
        0
    } else {
        let r = find_net_idx(nets.drop_first(), nm);
        if r < 0 {
            -1
        } else {
            1 + r
        }
    }
}

proof fn lemma_find_net_idx_at(nets: Seq<NetV>, nm: Seq<char>, i: int)
    requires
        0 <= i <= nets.len(),
        forall|j: int| 0 <= j < i ==> nets[j].name != nm,
        i == nets.len() || nets[i].name == nm,
    ensures
        find_net_idx(nets, nm) == if i == nets.len() {
            -1
        } else {
            i
        },
    decreases nets.len(),
{
    if nets.len() > 0 && i > 0 {
        lemma_find_net_idx_at(nets.drop_first(), nm, i - 1);
    }
}

/// Find the first net with this name.
fn find_net(nets: &Vec<Net>, nm: &str) -> (r: Option<usize>)
    ensures
        match r {
            Some(i) => i < nets@.len() && find_net_idx(net_views(nets@), nm@) == i,
            None => find_net_idx(net_views(nets@), nm@) == -1,
        },
{
    let mut i: usize = 0;
    while i < nets.len()
        invariant
            i <= nets@.len(),
            forall|j: int| 0 <= j < i ==> net_views(nets@)[j].name != nm@,
        decreases nets@.len() - i,
    {
        if str_eq(nets[i].name.as_str(), nm) {
            proof {
                lemma_find_net_idx_at(net_views(nets@), nm@, i as int);
            }
            return Some(i);
        }
        i += 1;
    }
    proof {
        lemma_find_net_idx_at(net_views(nets@), nm@, nets@.len() as int);
    }
    None
}

/// Index of the first node of `nodes` that belongs to the component
/// `rd`, or `-1`.
pub open spec fn find_node_idx(nodes: Seq<NodeV>, rd: Seq<char>) -> int
    decreases nodes.len(),
{
    if nodes.len() == 0 {
        -1
    } else if nodes[0].ref_des == rd {
        0
    } else {
        let r = find_node_idx(nodes.drop_first(), rd);
        if r < 0 {
            -1
        } else {
            1 + r
        }
    }
}

proof fn lemma_find_node_idx_at(nodes: Seq<NodeV>, rd: Seq<char>, i: int)
    requires
        0 <= i <= nodes.len(),
        forall|j: int| 0 <= j < i ==> nodes[j].ref_des != rd,
        i == nodes.len() || nodes[i].ref_des == rd,
    ensures
        find_node_idx(nodes, rd) == if i == nodes.len() {
            -1
        } else {
            i
        },
    decreases nodes.len(),
{
    if nodes.len() > 0 && i > 0 {
        lemma_find_node_idx_at(nodes.drop_first(), rd, i - 1);
    }
}

/// Find the first node belonging to this component.
fn find_node(nodes: &Vec<Node>, rd: &str) -> (r: Option<usize>)
    ensures
        match r {
            Some(i) => i < nodes@.len() && find_node_idx(node_views(nodes@), rd@) == i,
            None => find_node_idx(node_views(nodes@), rd@) == -1,
        },
{
    let mut i: usize = 0;
    while i < nodes.len()
        invariant
            i <= nodes@.len(),
            forall|j: int| 0 <= j < i ==> node_views(nodes@)[j].ref_des != rd@,
        decreases nodes@.len() - i,
    {
        if str_eq(nodes[i].ref_des.as_str(), rd) {
            proof {
                lemma_find_node_idx_at(node_views(nodes@), rd@, i as int);
            }
            return Some(i);
        }
        i += 1;
    }
    proof {
        lemma_find_node_idx_at(node_views(nodes@), rd@, nodes@.len() as int);
    }
    None
}

/// Every node on the net is the external component's own or is tagged
/// `Input`.
pub open spec fn all_input_spec(nodes: Seq<NodeV>, rd: Seq<char>) -> bool {
    forall|j: int|
        0 <= j < nodes.len() ==> nodes[j].ref_des == rd || nodes[j].typ == PinType::Input
}

/// Some node on the net other than the external component's is tagged
/// `Output`.
pub open spec fn any_output_spec(nodes: Seq<NodeV>, rd: Seq<char>) -> bool {
    exists|j: int|
        0 <= j < nodes.len() && nodes[j].ref_des != rd && nodes[j].typ == PinType::Output
}

/// Compute the two direction-inference flags of a net with respect to one
/// external component.
fn net_flags(net: &Net, rd: &str) -> (r: (bool, bool))
    ensures
        r.0 == all_input_spec(net@.nodes, rd@),
        r.1 == any_output_spec(net@.nodes, rd@),
{
    let mut all_input = true;
    let mut any_output = false;
    let mut i: usize = 0;
    while i < net.nodes.len()
        invariant
            i <= net.nodes@.len(),
            all_input == all_input_spec(net@.nodes.take(i as int), rd@),
            any_output == any_output_spec(net@.nodes.take(i as int), rd@),
        decreases net.nodes@.len() - i,
    {
        let node = &net.nodes[i];
        proof {
            assert(node@ == net@.nodes[i as int]);
            assert(net@.nodes.take(i + 1) =~= net@.nodes.take(i as int).push(net@.nodes[i as int]));
        }
        let own = str_eq(node.ref_des.as_str(), rd);
        let ghost prefix = net@.nodes.take(i as int);
        let ghost longer = net@.nodes.take(i + 1);
        let ghost old_all = all_input;
        let ghost old_any = any_output;
        let breaks_all = !own && !(node.typ == PinType::Input);
        let makes_any = !own && node.typ == PinType::Output;
        if breaks_all {
            all_input = false;
        }
        if makes_any {
            any_output = true;
        }
        proof {
            assert(longer[i as int] == node@);
            if all_input {
                assert forall|j: int|
                    0 <= j < longer.len() implies longer[j].ref_des == rd@ || longer[j].typ
                    == PinType::Input by {
                    if j < i as int {
                        assert(longer[j] == prefix[j]);
                    }
                }
            } else if old_all {
                assert(!(node@.ref_des == rd@ || node@.typ == PinType::Input));
                assert(!all_input_spec(longer, rd@));
            } else {
                let w = choose|j: int|
                    0 <= j < prefix.len() && !(prefix[j].ref_des == rd@ || prefix[j].typ
                        == PinType::Input);
                assert(longer[w] == prefix[w]);
                assert(!all_input_spec(longer, rd@));
            }
            if any_output {
                if makes_any {
                    assert(any_output_spec(longer, rd@));
                } else {
                    let w = choose|j: int|
                        0 <= j < prefix.len() && prefix[j].ref_des != rd@ && prefix[j].typ
                            == PinType::Output;
                    assert(longer[w] == prefix[w]);
                    assert(any_output_spec(longer, rd@));
                }
            } else {
                if any_output_spec(longer, rd@) {
                    let w = choose|j: int|
                        0 <= j < longer.len() && longer[j].ref_des != rd@ && longer[j].typ
                            == PinType::Output;
                    if w < i as int {
                        assert(prefix[w] == longer[w]);
                        assert(any_output_spec(prefix, rd@));
                    } else {
                        assert(longer[w] == node@);
                    }
                    assert(false);
                }
            }
        }
        i += 1;
    }
    proof {
        assert(net@.nodes.take(net.nodes@.len() as int) =~= net@.nodes);
    }
    (all_input, any_output)
}

/// The direction keyword a boundary port gets: the logical inverse of the
/// resolved pin direction.
pub open spec fn port_dir(t: PinType) -> Seq<char> {
    match t {
        PinType::Input => "output"@,
        PinType::Output => "input"@,
        PinType::Unknown => "inout"@,
    }
}

/// What resolving one external pin does: find the pin (an error when it is
/// absent), find its net and the component's node on it (silently nothing
/// when either is gone), retag that node — `Output` when every other node
/// is an input, `Input` when some other node is an output — copy the tag
/// onto the pin, and emit one port.
pub open spec fn resolve_pin_spec(c: ComponentV, nets: Seq<NetV>, pn: Seq<char>) -> Result<
    (ComponentV, Seq<NetV>, Option<ModPortV>),
    ErrorV,
> {
    let pi = find_pin_idx(c.pins, pn);
    if pi < 0 {
        Err(ErrorV::NoSuchPin(c.ref_des, pn))
    } else {
        let pin = c.pins[pi];
        let ni = find_net_idx(nets, pin.net);
        if ni < 0 {
            Ok((c, nets, None))
        } else {
            let net = nets[ni];
            let k = find_node_idx(net.nodes, c.ref_des);
            if k < 0 {
                Ok((c, nets, None))
            } else {
                let new_typ = if all_input_spec(net.nodes, c.ref_des) {
                    PinType::Output
                } else if any_output_spec(net.nodes, c.ref_des) {
                    PinType::Input
                } else {
                    net.nodes[k].typ
                };
                let node2 = NodeV {
                    ref_des: net.nodes[k].ref_des,
                    pin: net.nodes[k].pin,
                    typ: new_typ,
                };
                let nets2 = nets.update(ni, NetV { name: net.name, nodes: net.nodes.update(k, node2) });
                let pin2 = PinV { num: pin.num, name: pin.name, net: pin.net, typ: new_typ };
                let c2 = ComponentV {
                    ref_des: c.ref_des,
                    part_id: c.part_id,
                    pins: c.pins.update(pi, pin2),
                };
                let port = ModPortV {
                    name: verilog_name(c.ref_des + seq!['_'] + pin.name),
                    net: verilog_name(pin.net),
                    typ: port_dir(new_typ),
                };
                Ok((c2, nets2, Some(port)))
            }
        }
    }
}

/// Resolve the listed external pins of one component in order, each
/// against the net state the previous one left.
pub open spec fn resolve_pins_spec(
    c: ComponentV,
    nets: Seq<NetV>,
    pins: Seq<Seq<char>>,
    acc: Seq<ModPortV>,
) -> Result<(ComponentV, Seq<NetV>, Seq<ModPortV>), ErrorV>
    decreases pins.len(),
{
    if pins.len() == 0 {
        Ok((c, nets, acc))
    } else {
        match resolve_pin_spec(c, nets, pins[0]) {
            Err(e) => Err(e),
            Ok(t) => resolve_pins_spec(
                t.0,
                t.1,
                pins.drop_first(),
                match t.2 {
                    Some(p) => acc.push(p),
                    None => acc,
                },
            ),
        }
    }
}

/// Walk the components in netlist order; each whose rule is `External`
/// has its listed pins resolved against the evolving net state.
pub open spec fn resolve_comps_spec(
    done: Seq<ComponentV>,
    todo: Seq<ComponentV>,
    nets: Seq<NetV>,
    cfg: Seq<EntryV>,
    acc: Seq<ModPortV>,
) -> Result<(Seq<ComponentV>, Seq<NetV>, Seq<ModPortV>), ErrorV>
    decreases todo.len(),
{
    if todo.len() == 0 {
        Ok((done, nets, acc))
    } else {
        match match_spec(cfg, todo[0].ref_des, todo[0].part_id) {
            Some(RuleV::External(pins)) => match resolve_pins_spec(todo[0], nets, pins, acc) {
                Err(e) => Err(e),
                Ok(t) => resolve_comps_spec(done.push(t.0), todo.drop_first(), t.1, cfg, t.2),
            },
            _ => resolve_comps_spec(done.push(todo[0]), todo.drop_first(), nets, cfg, acc),
        }
    }
}

/// What direction resolution does to the whole netlist, and the ports it
/// collects.
pub open spec fn collect_mod_ports_spec(nl: NetListV, cfg: Seq<EntryV>) -> Result<
    (NetListV, Seq<ModPortV>),
    ErrorV,
> {
    match resolve_comps_spec(Seq::empty(), nl.components, nl.nets, cfg, Seq::empty()) {
        Err(e) => Err(e),
        Ok(t) => Ok((NetListV { components: t.0, nets: t.1 }, t.2)),
    }
}

/// Resolve one external pin of component `ci` in place.
#[verifier::loop_isolation(false)]
fn step_pin(netlist: &mut NetList, ci: usize, pn: &str, ports: &mut Vec<ModPort>) -> (r: Result<
    (),
    Error,
>)
    requires
        ci < old(netlist)@.components.len(),
    ensures
        match r {
            Ok(()) => {
                let res = resolve_pin_spec(
                    old(netlist)@.components[ci as int],
                    old(netlist)@.nets,
                    pn@,
                );
                &&& res matches Ok(t)
                &&& res matches Ok(t) ==> {
                    &&& final(netlist)@.components == old(netlist)@.components.update(
                        ci as int,
                        t.0,
                    )
                    &&& final(netlist)@.nets == t.1
                    &&& port_views(final(ports)@) == (match t.2 {
                        Some(p) => port_views(old(ports)@).push(p),
                        None => port_views(old(ports)@),
                    })
                }
            },
            Err(e) => {
                &&& resolve_pin_spec(
                    old(netlist)@.components[ci as int],
                    old(netlist)@.nets,
                    pn@,
                ) == Err::<(ComponentV, Seq<NetV>, Option<ModPortV>), ErrorV>(e@)
                &&& *final(netlist) == *old(netlist)
                &&& *final(ports) == *old(ports)
            },
        },
{
    let ghost c0 = netlist@.components[ci as int];
    let ghost nets0 = netlist@.nets;
    let pi = match find_pin(&netlist.components[ci].pins, pn) {
        None => {
            let e = Error::NoSuchPin {
                ref_des: netlist.components[ci].ref_des.clone(),
                pin: pn.to_owned(),
            };
            return Err(e);
        },
        Some(pi) => pi,
    };
    let net_name = netlist.components[ci].pins[pi].net.clone();
    proof {
        assert(c0.pins[pi as int] == netlist.components@[ci as int].pins@[pi as int]@);
    }
    let ni = match find_net(&netlist.nets, net_name.as_str()) {
        None => {
            proof {
                assert(netlist@.components =~= old(netlist)@.components.update(ci as int, c0));
            }
            return Ok(());
        },
        Some(ni) => ni,
    };
    let rd = netlist.components[ci].ref_des.clone();
    let flags = net_flags(&netlist.nets[ni], rd.as_str());
    let k = match find_node(&netlist.nets[ni].nodes, rd.as_str()) {
        None => {
            proof {
                assert(netlist@.components =~= old(netlist)@.components.update(ci as int, c0));
            }
            return Ok(());
        },
        Some(k) => k,
    };
    let cur_typ = netlist.nets[ni].nodes[k].typ;
    let new_typ = if flags.0 {
        PinType::Output
    } else if flags.1 {
        PinType::Input
    } else {
        cur_typ
    };
    let ghost pin = c0.pins[pi as int];
    let ghost net = nets0[ni as int];
    let ghost node2 = NodeV {
        ref_des: net.nodes[k as int].ref_des,
        pin: net.nodes[k as int].pin,
        typ: new_typ,
    };
    let ghost pin2 = PinV { num: pin.num, name: pin.name, net: pin.net, typ: new_typ };
    let ghost c2 = ComponentV {
        ref_des: c0.ref_des,
        part_id: c0.part_id,
        pins: c0.pins.update(pi as int, pin2),
    };
    netlist.nets[ni].nodes[k].typ = new_typ;
    proof {
        let nodes_now = netlist.nets@[ni as int].nodes@;
        assert(node_views(nodes_now) =~= net.nodes.update(k as int, node2));
        assert(netlist.nets@[ni as int]@ == NetV {
            name: net.name,
            nodes: net.nodes.update(k as int, node2),
        });
        assert(net_views(netlist.nets@) =~= nets0.update(
            ni as int,
            NetV { name: net.name, nodes: net.nodes.update(k as int, node2) },
        ));
    }
    netlist.components[ci].pins[pi].typ = new_typ;
    proof {
        let pins_now = netlist.components@[ci as int].pins@;
        assert(pin_views(pins_now) =~= c0.pins.update(pi as int, pin2));
        assert(netlist.components@[ci as int]@ == c2);
        assert(comp_views(netlist.components@) =~= old(netlist)@.components.update(ci as int, c2));
    }
    let mut pname = rd;
    pname.append("_");
    pname.append(netlist.components[ci].pins[pi].name.as_str());
    let name = make_verilog_name(pname.as_str());
    let net_s = make_verilog_name(net_name.as_str());
    let typ: String = match new_typ {
        PinType::Input => "output".to_owned(),
        PinType::Output => "input".to_owned(),
        PinType::Unknown => "inout".to_owned(),
    };
    let ghost ports0 = ports@;
    ports.push(ModPort { name, net: net_s, typ });
    proof {
        reveal_strlit("_");
        assert("_"@ =~= seq!['_']);
        assert(pname@ == c0.ref_des + seq!['_'] + pin.name);
        assert(port_views(ports@) =~= port_views(ports0).push(ports@.last()@));
    }
    Ok(())
}

/// Copy a list of strings.
fn clone_strings(v: &Vec<String>) -> (r: Vec<String>)
    ensures
        r@ == v@,
{
    let mut r: Vec<String> = Vec::new();
    let mut i: usize = 0;
    while i < v.len()
        invariant
            i <= v@.len(),
            r@ == v@.take(i as int),
        decreases v@.len() - i,
    {
        r.push(v[i].clone());
        proof {
            assert(r@ =~= v@.take(i + 1));
        }
        i += 1;
    }
    proof {
        assert(v@.take(v@.len() as int) =~= v@);
    }
    r
}

/// Resolve the direction of every external boundary pin, retagging the
/// shared net graph in place, and collect the module ports: in netlist
/// component order, and within one component in the order its rule lists
/// the pins.
#[verifier::loop_isolation(false)]
pub fn collect_mod_ports(netlist: &mut NetList, config: &Config) -> (r: Result<Vec<ModPort>, Error>)
    ensures
        match r {
            Ok(ports) => collect_mod_ports_spec(old(netlist)@, config@) == Ok::<
                (NetListV, Seq<ModPortV>),
                ErrorV,
            >((final(netlist)@, port_views(ports@))),
            Err(e) => collect_mod_ports_spec(old(netlist)@, config@) == Err::<
                (NetListV, Seq<ModPortV>),
                ErrorV,
            >(e@),
        },
{
    let mut ports: Vec<ModPort> = Vec::new();
    let mut ci: usize = 0;
    let ghost orig = netlist@;
    let ghost goal = resolve_comps_spec(
        Seq::empty(),
        orig.components,
        orig.nets,
        config@,
        Seq::empty(),
    );
    proof {
        assert(comp_views(netlist.components@).take(0) =~= Seq::<ComponentV>::empty());
        assert(comp_views(netlist.components@).skip(0) =~= orig.components);
        assert(port_views(ports@) =~= Seq::<ModPortV>::empty());
    }
    while ci < netlist.components.len()
        invariant
            ci <= netlist.components@.len(),
            netlist.components@.len() == orig.components.len(),
            goal == resolve_comps_spec(
                comp_views(netlist.components@).take(ci as int),
                comp_views(netlist.components@).skip(ci as int),
                net_views(netlist.nets@),
                config@,
                port_views(ports@),
            ),
        decreases netlist.components@.len() - ci,
    {
        let ghost cv = comp_views(netlist.components@);
        let ghost cur_c = cv[ci as int];
        proof {
            assert(cv.skip(ci as int)[0] == cur_c);
        }
        let pins_opt: Option<Vec<String>> = match config.match_component(&netlist.components[ci]) {
            Some(PartRule::External(pins)) => Some(clone_strings(pins)),
            Some(_) => None,
            None => None,
        };
        match pins_opt {
            None => {
                proof {
                    assert(cv.take(ci as int).push(cur_c) =~= cv.take(ci + 1));
                    assert(cv.skip(ci as int).drop_first() =~= cv.skip(ci + 1));
                }
            },
            Some(pins_vec) => {
                let ghost pv = views_of(pins_vec@);
                let ghost entry_comps = comp_views(netlist.components@);
                let ghost entry_nets = net_views(netlist.nets@);
                let ghost entry_ports = port_views(ports@);
                proof {
                    assert(pv.skip(0) =~= pv);
                    assert(entry_comps.update(ci as int, entry_comps[ci as int]) =~= entry_comps);
                }
                let mut j: usize = 0;
                while j < pins_vec.len()
                    invariant
                        ci < netlist.components@.len(),
                        netlist.components@.len() == orig.components.len(),
                        j <= pins_vec@.len(),
                        pv == views_of(pins_vec@),
                        comp_views(netlist.components@) == entry_comps.update(
                            ci as int,
                            comp_views(netlist.components@)[ci as int],
                        ),
                        resolve_pins_spec(cur_c, entry_nets, pv, entry_ports)
                            == resolve_pins_spec(
                            comp_views(netlist.components@)[ci as int],
                            net_views(netlist.nets@),
                            pv.skip(j as int),
                            port_views(ports@),
                        ),
                    decreases pins_vec@.len() - j,
                {
                    let ghost c_before = comp_views(netlist.components@)[ci as int];
                    let ghost nets_before = net_views(netlist.nets@);
                    let ghost ports_before = port_views(ports@);
                    proof {
                        assert(pv.skip(j as int)[0] == pv[j as int]);
                        assert(pv[j as int] == pins_vec@[j as int]@);
                        assert(pv.skip(j as int).drop_first() =~= pv.skip(j + 1));
                    }
                    match step_pin(netlist, ci, pins_vec[j].as_str(), &mut ports) {
                        Ok(()) => {
                            proof {
                                assert(comp_views(netlist.components@) =~= entry_comps.update(
                                    ci as int,
                                    comp_views(netlist.components@)[ci as int],
                                ));
                            }
                        },
                        Err(e) => {
                            proof {
                                assert(resolve_pins_spec(
                                    c_before,
                                    nets_before,
                                    pv.skip(j as int),
                                    ports_before,
                                ) == Err::<(ComponentV, Seq<NetV>, Seq<ModPortV>), ErrorV>(e@));
                                assert(resolve_comps_spec(
                                    cv.take(ci as int),
                                    cv.skip(ci as int),
                                    entry_nets,
                                    config@,
                                    entry_ports,
                                ) == Err::<(Seq<ComponentV>, Seq<NetV>, Seq<ModPortV>), ErrorV>(
                                    e@,
                                ));
                            }
                            return Err(e);
                        },
                    }
                    j += 1;
                }
                proof {
                    assert(pv.skip(pins_vec@.len() as int) =~= Seq::<Seq<char>>::empty());
                    let c_now = comp_views(netlist.components@)[ci as int];
                    assert(resolve_pins_spec(cur_c, entry_nets, pv, entry_ports) == Ok::<
                        (ComponentV, Seq<NetV>, Seq<ModPortV>),
                        ErrorV,
                    >((c_now, net_views(netlist.nets@), port_views(ports@))));
                    assert(comp_views(netlist.components@).take(ci as int) =~= cv.take(ci as int));
                    assert(comp_views(netlist.components@).skip(ci + 1) =~= cv.skip(ci + 1));
                    assert(cv.take(ci as int).push(c_now) =~= comp_views(
                        netlist.components@,
                    ).take(ci + 1));
                    assert(cv.skip(ci as int).drop_first() =~= cv.skip(ci + 1));
                }
            },
        }
        ci += 1;
    }
    proof {
        let cvf = comp_views(netlist.components@);
        assert(cvf.skip(cvf.len() as int) =~= Seq::<ComponentV>::empty());
        assert(cvf.take(cvf.len() as int) =~= cvf);
    }
    Ok(ports)
}

/// One instantiation to emit: the primitive or module name, the escaped
/// instance name, and the escaped nets its listed pins connect to.
#[derive(Debug, Clone)]
pub struct Comp {
    pub name: String,
    pub module: String,
    pub nets: Vec<String>,
}

/// Mathematical image of a `Comp`.
pub struct CompV {
    pub name: Seq<char>,
    pub module: Seq<char>,
    pub nets: Seq<Seq<char>>,
}

impl View for Comp {
    type V = CompV;

    open spec fn view(&self) -> CompV {
        CompV { name: self.name@, module: self.module@, nets: views_of(self.nets@) }
    }
}

/// The mathematical images of a sequence of instantiations.
pub open spec fn inst_views(s: Seq<Comp>) -> Seq<CompV> {
    s.map_values(|c: Comp| c@)
}

/// The escaped net names a `Module` rule's pin list resolves to on one
/// component, in rule order; a pin number the component lacks is an error.
pub open spec fn comp_nets_spec(c: ComponentV, pins: Seq<Seq<char>>) -> Result<
    Seq<Seq<char>>,
    ErrorV,
>
    decreases pins.len(),
{
    if pins.len() == 0 {
        Ok(Seq::empty())
    } else {
        let pi = find_pin_idx(c.pins, pins[0]);
        if pi < 0 {
            Err(ErrorV::NoSuchPin(c.ref_des, pins[0]))
        } else {
            match comp_nets_spec(c, pins.drop_first()) {
                Err(e) => Err(e),
                Ok(rest) => Ok(seq![verilog_name(c.pins[pi].net)] + rest),
            }
        }
    }
}

proof fn lemma_comp_nets_first_err(c: ComponentV, pins: Seq<Seq<char>>, j: int, e: ErrorV)
    requires
        0 <= j < pins.len(),
        forall|m: int| 0 <= m < j ==> find_pin_idx(c.pins, pins[m]) >= 0,
        find_pin_idx(c.pins, pins[j]) < 0,
        e == ErrorV::NoSuchPin(c.ref_des, pins[j]),
    ensures
        comp_nets_spec(c, pins) == Err::<Seq<Seq<char>>, ErrorV>(e),
    decreases j,
{
    if j > 0 {
        assert forall|m: int| 0 <= m < j - 1 implies find_pin_idx(
            c.pins,
            pins.drop_first()[m],
        ) >= 0 by {
            assert(pins.drop_first()[m] == pins[m + 1]);
        }
        assert(pins.drop_first()[j - 1] == pins[j as int]);
        lemma_comp_nets_first_err(c, pins.drop_first(), j - 1, e);
    }
}

proof fn lemma_comp_nets_all_ok(c: ComponentV, pins: Seq<Seq<char>>, acc: Seq<Seq<char>>)
    requires
        acc.len() == pins.len(),
        forall|m: int| 0 <= m < pins.len() ==> #[trigger] find_pin_idx(c.pins, pins[m]) >= 0,
        forall|m: int|
            0 <= m < pins.len() ==> acc[m] == verilog_name(
                c.pins[#[trigger] find_pin_idx(c.pins, pins[m])].net,
            ),
    ensures
        comp_nets_spec(c, pins) == Ok::<Seq<Seq<char>>, ErrorV>(acc),
    decreases pins.len(),
{
    if pins.len() == 0 {
        assert(acc =~= Seq::<Seq<char>>::empty());
    } else {
        assert forall|m: int| 0 <= m < pins.drop_first().len() implies #[trigger] find_pin_idx(
            c.pins,
            pins.drop_first()[m],
        ) >= 0 by {
            assert(pins.drop_first()[m] == pins[m + 1]);
        }
        assert forall|m: int| 0 <= m < pins.drop_first().len() implies acc.drop_first()[m]
            == verilog_name(c.pins[#[trigger] find_pin_idx(c.pins, pins.drop_first()[m])].net) by {
            assert(pins.drop_first()[m] == pins[m + 1]);
            assert(acc.drop_first()[m] == acc[m + 1]);
        }
        lemma_comp_nets_all_ok(c, pins.drop_first(), acc.drop_first());
        assert(seq![acc[0]] + acc.drop_first() =~= acc);
    }
}

/// Walk the components in netlist order and build one instantiation for
/// each `Module`-ruled component; `External` components yield none, a
/// component without a rule is an error. A `Skip` component yields none
/// either: the skip pass removes them all before emission, and the
/// executable `collect_comps` requires that it has.
pub open spec fn collect_comps_spec(
    todo: Seq<ComponentV>,
    cfg: Seq<EntryV>,
    acc: Seq<CompV>,
) -> Result<Seq<CompV>, ErrorV>
    decreases todo.len(),
{
    if todo.len() == 0 {
        Ok(acc)
    } else {
        match match_spec(cfg, todo[0].ref_des, todo[0].part_id) {
            None => Err(ErrorV::NoRule(todo[0].ref_des, todo[0].part_id)),
            Some(RuleV::Skip) => collect_comps_spec(todo.drop_first(), cfg, acc),
            Some(RuleV::External(pins)) => collect_comps_spec(todo.drop_first(), cfg, acc),
            Some(RuleV::Module(m, pins)) => match comp_nets_spec(todo[0], pins) {
                Err(e) => Err(e),
                Ok(nets) => collect_comps_spec(
                    todo.drop_first(),
                    cfg,
                    acc.push(CompV { name: verilog_name(todo[0].ref_des), module: m, nets }),
                ),
            },
        }
    }
}

/// Collect the instantiations to emit. The caller must already have
/// removed every component whose rule is `Skip`.
#[verifier::loop_isolation(false)]
pub fn collect_comps(netlist: &NetList, config: &Config) -> (r: Result<Vec<Comp>, Error>)
    requires
        forall|i: int|
            0 <= i < netlist@.components.len() ==> match_spec(
                config@,
                netlist@.components[i].ref_des,
                netlist@.components[i].part_id,
            ) != Some(RuleV::Skip),
    ensures
        match r {
            Ok(comps) => collect_comps_spec(netlist@.components, config@, Seq::empty()) == Ok::<
                Seq<CompV>,
                ErrorV,
            >(inst_views(comps@)),
            Err(e) => collect_comps_spec(netlist@.components, config@, Seq::empty()) == Err::<
                Seq<CompV>,
                ErrorV,
            >(e@),
        },
{
    let ghost cv = netlist@.components;
    let ghost goal = collect_comps_spec(cv, config@, Seq::empty());
    let mut comps: Vec<Comp> = Vec::new();
    let mut i: usize = 0;
    proof {
        assert(cv.skip(0) =~= cv);
        assert(inst_views(comps@) =~= Seq::<CompV>::empty());
    }
    while i < netlist.components.len()
        invariant
            i <= cv.len(),
            cv.len() == netlist.components@.len(),
            goal == collect_comps_spec(cv.skip(i as int), config@, inst_views(comps@)),
        decreases cv.len() - i,
    {
        let comp = &netlist.components[i];
        proof {
            assert(comp@ == cv.skip(i as int)[0]);
            assert(cv.skip(i as int).drop_first() =~= cv.skip(i + 1));
        }
        match config.match_component(comp) {
            None => {
                let e = Error::NoRule {
                    ref_des: comp.ref_des.clone(),
                    part_id: comp.part_id.clone(),
                };
                return Err(e);
            },
            Some(PartRule::Skip) => {
                proof {
                    assert(match_spec(config@, cv[i as int].ref_des, cv[i as int].part_id)
                        != Some(RuleV::Skip));
                    assert(false);
                }
            },
            Some(PartRule::External(_)) => {},
            Some(PartRule::Module(module, pins)) => {
                let ghost pv = views_of(pins@);
                let mut nets: Vec<String> = Vec::new();
                let mut j: usize = 0;
                proof {
                    assert(views_of(nets@) =~= Seq::<Seq<char>>::empty());
                }
                while j < pins.len()
                    invariant
                        j <= pv.len(),
                        pv.len() == pins@.len(),
                        pv == views_of(pins@),
                        views_of(nets@).len() == j,
                        forall|m: int| 0 <= m < j ==> #[trigger] find_pin_idx(comp@.pins, pv[m])
                            >= 0,
                        forall|m: int|
                            0 <= m < j ==> views_of(nets@)[m] == verilog_name(
                                comp@.pins[#[trigger] find_pin_idx(comp@.pins, pv[m])].net,
                            ),
                    decreases pv.len() - j,
                {
                    match find_pin(&comp.pins, pins[j].as_str()) {
                        None => {
                            let e = Error::NoSuchPin {
                                ref_des: comp.ref_des.clone(),
                                pin: pins[j].clone(),
                            };
                            proof {
                                lemma_comp_nets_first_err(comp@, pv, j as int, e@);
                            }
                            return Err(e);
                        },
                        Some(pi) => {
                            let ghost prev = nets@;
                            nets.push(make_verilog_name(comp.pins[pi].net.as_str()));
                            proof {
                                assert(views_of(nets@) =~= views_of(prev).push(nets@.last()@));
                                assert(comp@.pins[pi as int].net == comp.pins@[pi as int].net@);
                            }
                        },
                    }
                    j += 1;
                }
                proof {
                    lemma_comp_nets_all_ok(comp@, pv, views_of(nets@));
                }
                let ghost prev = comps@;
                comps.push(
                    Comp {
                        name: make_verilog_name(comp.ref_des.as_str()),
                        module: module.clone(),
                        nets,
                    },
                );
                proof {
                    assert(inst_views(comps@) =~= inst_views(prev).push(comps@.last()@));
                }
            },
        }
        i += 1;
    }
    proof {
        assert(cv.skip(cv.len() as int) =~= Seq::<ComponentV>::empty());
    }
    Ok(comps)
}

/// The header lines for the ports after the first, each preceded by a
/// comma, a newline and the port-list indent.
pub open spec fn ports_tail_text(ports: Seq<ModPortV>) -> Seq<char>
    decreases ports.len(),
{
    if ports.len() == 0 {
        Seq::empty()
    } else {
        ",\n    "@ + ports[0].typ + " "@ + ports[0].name + ports_tail_text(ports.drop_first())
    }
}

/// The module header: a parameterless declaration when there are no
/// boundary ports, else one `direction name` entry per port.
pub open spec fn header_text(module_name: Seq<char>, ports: Seq<ModPortV>) -> Seq<char> {
    if ports.len() == 0 {
        "module "@ + module_name + "();\n"@
    } else {
        "module "@ + module_name + "\n(\n    "@ + ports[0].typ + " "@ + ports[0].name
            + ports_tail_text(ports.drop_first()) + "\n);\n"@
    }
}

/// One `wire` declaration per remaining net, in net order.
pub open spec fn wires_text(nets: Seq<NetV>) -> Seq<char>
    decreases nets.len(),
{
    if nets.len() == 0 {
        Seq::empty()
    } else {
        "    wire "@ + verilog_name(nets[0].name) + ";\n"@ + wires_text(nets.drop_first())
    }
}

/// One bidirectional tie per boundary port, in port order.
pub open spec fn trans_text(ports: Seq<ModPortV>) -> Seq<char>
    decreases ports.len(),
{
    if ports.len() == 0 {
        Seq::empty()
    } else {
        "    tran("@ + ports[0].name + ","@ + ports[0].net + ");\n"@ + trans_text(
            ports.drop_first(),
        )
    }
}

/// The nets of one instantiation after the first, each preceded by a
/// comma.
pub open spec fn inst_nets_tail(nets: Seq<Seq<char>>) -> Seq<char>
    decreases nets.len(),
{
    if nets.len() == 0 {
        Seq::empty()
    } else {
        ","@ + nets[0] + inst_nets_tail(nets.drop_first())
    }
}

/// The comma-separated nets of one instantiation.
pub open spec fn inst_nets_text(nets: Seq<Seq<char>>) -> Seq<char> {
    if nets.len() == 0 {
        Seq::empty()
    } else {
        nets[0] + inst_nets_tail(nets.drop_first())
    }
}

/// One instantiation line; the blank after the primitive name is left out
/// when the name already ends in one.
pub open spec fn inst_text(c: CompV) -> Seq<char> {
    "    "@ + c.module + (if ends_with_spec(c.module, " "@) {
        Seq::<char>::empty()
    } else {
        " "@
    }) + c.name + "("@ + inst_nets_text(c.nets) + ");\n"@
}

/// All instantiation lines, in component order.
pub open spec fn insts_text(cs: Seq<CompV>) -> Seq<char>
    decreases cs.len(),
{
    if cs.len() == 0 {
        Seq::empty()
    } else {
        inst_text(cs[0]) + insts_text(cs.drop_first())
    }
}

/// The whole generated module, byte for byte: header, wires, the fixed
/// power and ground ties, the boundary ties, the instantiations, and the
/// closing keyword.
pub open spec fn render_spec(
    module_name: Seq<char>,
    ports: Seq<ModPortV>,
    nets: Seq<NetV>,
    comps: Seq<CompV>,
) -> Seq<char> {
    header_text(module_name, ports) + "\n"@ + wires_text(nets) + "\n"@
        + "    assign VCC = 1;\n"@ + "    assign GND = 0;\n"@ + "\n"@ + trans_text(ports)
        + "\n"@ + insts_text(comps) + "endmodule\n"@
}

/// Append the module header.
#[verifier::loop_isolation(false)]
fn render_header(out: &mut String, module_name: &String, ports: &Vec<ModPort>)
    ensures
        final(out)@ == old(out)@ + header_text(module_name@, port_views(ports@)),
{
    let ghost pv = port_views(ports@);
    let ghost base = out@;
    if ports.len() == 0 {
        out.append("module ");
        out.append(module_name.as_str());
        out.append("();\n");
        proof {
            assert(out@ =~= base + header_text(module_name@, pv));
        }
        return ;
    }
    out.append("module ");
    out.append(module_name.as_str());
    out.append("\n(\n    ");
    out.append(ports[0].typ.as_str());
    out.append(" ");
    out.append(ports[0].name.as_str());
    proof {
        assert(ports@[0]@ == pv[0]);
        assert(pv.skip(1) =~= pv.drop_first());
    }
    let mut j: usize = 1;
    while j < ports.len()
        invariant
            1 <= j <= pv.len(),
            out@ + ports_tail_text(pv.skip(j as int)) == base + "module "@ + module_name@
                + "\n(\n    "@ + pv[0].typ + " "@ + pv[0].name + ports_tail_text(
                pv.drop_first(),
            ),
        decreases pv.len() - j,
    {
        let ghost at_port = out@;
        out.append(",\n    ");
        out.append(ports[j].typ.as_str());
        out.append(" ");
        out.append(ports[j].name.as_str());
        proof {
            assert(ports@[j as int]@ == pv[j as int]);
            assert(pv.skip(j as int)[0] == pv[j as int]);
            assert(pv.skip(j as int).drop_first() =~= pv.skip(j + 1));
            assert(ports_tail_text(pv.skip(j as int)) == ",\n    "@ + pv[j as int].typ + " "@
                + pv[j as int].name + ports_tail_text(pv.skip(j + 1)));
            assert(out@ + ports_tail_text(pv.skip(j + 1)) =~= at_port + ports_tail_text(
                pv.skip(j as int),
            ));
        }
        j += 1;
    }
    proof {
        assert(pv.skip(pv.len() as int) =~= Seq::<ModPortV>::empty());
    }
    out.append("\n);\n");
    proof {
        assert(out@ =~= base + header_text(module_name@, pv));
    }
}

/// Append one `wire` line per net.
#[verifier::loop_isolation(false)]
fn render_wires(out: &mut String, nets: &Vec<Net>)
    ensures
        final(out)@ == old(out)@ + wires_text(net_views(nets@)),
{
    let ghost nv = net_views(nets@);
    let ghost base = out@;
    let mut i: usize = 0;
    proof {
        assert(nv.skip(0) =~= nv);
    }
    while i < nets.len()
        invariant
            i <= nv.len(),
            out@ + wires_text(nv.skip(i as int)) == base + wires_text(nv),
        decreases nv.len() - i,
    {
        let ghost at = out@;
        out.append("    wire ");
        let wn = make_verilog_name(nets[i].name.as_str());
        out.append(wn.as_str());
        out.append(";\n");
        proof {
            assert(nets@[i as int]@ == nv[i as int]);
            assert(nv.skip(i as int)[0] == nv[i as int]);
            assert(nv.skip(i as int).drop_first() =~= nv.skip(i + 1));
            assert(out@ + wires_text(nv.skip(i + 1)) =~= at + wires_text(nv.skip(i as int)));
        }
        i += 1;
    }
    proof {
        assert(nv.skip(nv.len() as int) =~= Seq::<NetV>::empty());
        assert(out@ + Seq::<char>::empty() =~= out@);
    }
}

/// Append one boundary tie per port.
#[verifier::loop_isolation(false)]
fn render_trans(out: &mut String, ports: &Vec<ModPort>)
    ensures
        final(out)@ == old(out)@ + trans_text(port_views(ports@)),
{
    let ghost pv = port_views(ports@);
    let ghost base = out@;
    let mut i: usize = 0;
    proof {
        assert(pv.skip(0) =~= pv);
    }
    while i < ports.len()
        invariant
            i <= pv.len(),
            out@ + trans_text(pv.skip(i as int)) == base + trans_text(pv),
        decreases pv.len() - i,
    {
        let ghost at = out@;
        out.append("    tran(");
        out.append(ports[i].name.as_str());
        out.append(",");
        out.append(ports[i].net.as_str());
        out.append(");\n");
        proof {
            assert(ports@[i as int]@ == pv[i as int]);
            assert(pv.skip(i as int)[0] == pv[i as int]);
            assert(pv.skip(i as int).drop_first() =~= pv.skip(i + 1));
            assert(out@ + trans_text(pv.skip(i + 1)) =~= at + trans_text(pv.skip(i as int)));
        }
        i += 1;
    }
    proof {
        assert(pv.skip(pv.len() as int) =~= Seq::<ModPortV>::empty());
        assert(out@ + Seq::<char>::empty() =~= out@);
    }
}

/// Append one instantiation line.
#[verifier::loop_isolation(false)]
fn render_inst(out: &mut String, comp: &Comp)
    ensures
        final(out)@ == old(out)@ + inst_text(comp@),
{
    let ghost base = out@;
    out.append("    ");
    out.append(comp.module.as_str());
    if !ends_with(comp.module.as_str(), " ") {
        out.append(" ");
    }
    out.append(comp.name.as_str());
    out.append("(");
    let ghost cnv = comp@.nets;
    let ghost base_nets = out@;
    let mut j: usize = 0;
    while j < comp.nets.len()
        invariant
            j <= cnv.len(),
            cnv == views_of(comp.nets@),
            out@ + (if j == 0 {
                inst_nets_text(cnv)
            } else {
                inst_nets_tail(cnv.skip(j as int))
            }) == base_nets + inst_nets_text(cnv),
        decreases cnv.len() - j,
    {
        let ghost at = out@;
        if j > 0 {
            out.append(",");
        }
        out.append(comp.nets[j].as_str());
        proof {
            assert(comp.nets@[j as int]@ == cnv[j as int]);
            assert(cnv.skip(j as int)[0] == cnv[j as int]);
            assert(cnv.skip(j as int).drop_first() =~= cnv.skip(j + 1));
            if j == 0 {
                assert(cnv.drop_first() =~= cnv.skip(1));
                assert(out@ + inst_nets_tail(cnv.skip(1)) =~= at + inst_nets_text(cnv));
            } else {
                assert(inst_nets_tail(cnv.skip(j as int)) == ","@ + cnv[j as int]
                    + inst_nets_tail(cnv.skip(j + 1)));
                assert(out@ + inst_nets_tail(cnv.skip(j + 1)) =~= at + inst_nets_tail(
                    cnv.skip(j as int),
                ));
            }
        }
        j += 1;
    }
    proof {
        if cnv.len() > 0 {
            assert(cnv.skip(cnv.len() as int) =~= Seq::<Seq<char>>::empty());
            assert(out@ + Seq::<char>::empty() =~= out@);
        }
        assert(out@ == base_nets + inst_nets_text(cnv));
    }
    out.append(");\n");
    proof {
        assert(out@ =~= base + inst_text(comp@));
    }
}

/// Append every instantiation line, in order.
#[verifier::loop_isolation(false)]
fn render_insts(out: &mut String, comps: &Vec<Comp>)
    ensures
        final(out)@ == old(out)@ + insts_text(inst_views(comps@)),
{
    let ghost iv = inst_views(comps@);
    let ghost base = out@;
    let mut i: usize = 0;
    proof {
        assert(iv.skip(0) =~= iv);
    }
    while i < comps.len()
        invariant
            i <= iv.len(),
            out@ + insts_text(iv.skip(i as int)) == base + insts_text(iv),
        decreases iv.len() - i,
    {
        let ghost at = out@;
        render_inst(out, &comps[i]);
        proof {
            assert(comps@[i as int]@ == iv[i as int]);
            assert(iv.skip(i as int)[0] == iv[i as int]);
            assert(iv.skip(i as int).drop_first() =~= iv.skip(i + 1));
            assert(out@ + insts_text(iv.skip(i + 1)) =~= at + insts_text(iv.skip(i as int)));
        }
        i += 1;
    }
    proof {
        assert(iv.skip(iv.len() as int) =~= Seq::<CompV>::empty());
        assert(out@ + Seq::<char>::empty() =~= out@);
    }
}

/// Write the generated module into a string, as `render_spec` lays it out.
fn render(module_name: &String, ports: &Vec<ModPort>, nets: &Vec<Net>, comps: &Vec<Comp>) -> (r:
    String)
    ensures
        r@ == render_spec(module_name@, port_views(ports@), net_views(nets@), inst_views(comps@)),
{
    let mut out = String::new();
    render_header(&mut out, module_name, ports);
    out.append("\n");
    render_wires(&mut out, nets);
    out.append("\n");
    out.append("    assign VCC = 1;\n");
    out.append("    assign GND = 0;\n");
    out.append("\n");
    render_trans(&mut out, ports);
    out.append("\n");
    render_insts(&mut out, comps);
    out.append("endmodule\n");
    proof {
        assert(out@ =~= render_spec(
            module_name@,
            port_views(ports@),
            net_views(nets@),
            inst_views(comps@),
        ));
    }
    out
}

/// Two components with the same identity: the same reference designator
/// and part type, and pins that differ at most in their direction tags.
pub open spec fn comp_identity_eq(a: ComponentV, b: ComponentV) -> bool {
    &&& a.ref_des == b.ref_des
    &&& a.part_id == b.part_id
    &&& a.pins.len() == b.pins.len()
    &&& forall|p: int|
        0 <= p < a.pins.len() ==> (#[trigger] a.pins[p]).num == b.pins[p].num && a.pins[p].name
            == b.pins[p].name && a.pins[p].net == b.pins[p].net
}

/// Two net lists with the same shape: the same names in the same order,
/// and the same attachment points up to their direction tags.
pub open spec fn nets_shape_eq(a: Seq<NetV>, b: Seq<NetV>) -> bool {
    &&& a.len() == b.len()
    &&& forall|i: int|
        0 <= i < a.len() ==> (#[trigger] a[i]).name == b[i].name && a[i].nodes.len()
            == b[i].nodes.len()
    &&& forall|i: int, n: int|
        0 <= i < a.len() && 0 <= n < a[i].nodes.len() ==> (#[trigger] a[i].nodes[n]).ref_des
            == b[i].nodes[n].ref_des && a[i].nodes[n].pin == b[i].nodes[n].pin
}

proof fn lemma_comp_identity_trans(a: ComponentV, b: ComponentV, c: ComponentV)
    requires
        comp_identity_eq(a, b),
        comp_identity_eq(b, c),
    ensures
        comp_identity_eq(a, c),
{
}

pub(crate) proof fn lemma_find_pin_idx_bounds(pins: Seq<PinV>, pn: Seq<char>)
    ensures
        find_pin_idx(pins, pn) == -1 || (0 <= find_pin_idx(pins, pn) < pins.len()),
    decreases pins.len(),
{
    if pins.len() > 0 && pins[0].num != pn {
        lemma_find_pin_idx_bounds(pins.drop_first(), pn);
    }
}

proof fn lemma_find_net_idx_bounds(nets: Seq<NetV>, nm: Seq<char>)
    ensures
        find_net_idx(nets, nm) == -1 || (0 <= find_net_idx(nets, nm) < nets.len()),
    decreases nets.len(),
{
    if nets.len() > 0 && nets[0].name != nm {
        lemma_find_net_idx_bounds(nets.drop_first(), nm);
    }
}

proof fn lemma_find_node_idx_bounds(nodes: Seq<NodeV>, rd: Seq<char>)
    ensures
        find_node_idx(nodes, rd) == -1 || (0 <= find_node_idx(nodes, rd) < nodes.len()),
    decreases nodes.len(),
{
    if nodes.len() > 0 && nodes[0].ref_des != rd {
        lemma_find_node_idx_bounds(nodes.drop_first(), rd);
    }
}

/// Resolving a pin changes at most direction tags: the component's
/// identity and the nets' shape are kept.
proof fn lemma_resolve_pin_preserves(c: ComponentV, nets: Seq<NetV>, pn: Seq<char>)
    ensures
        resolve_pin_spec(c, nets, pn) matches Ok(t) ==> comp_identity_eq(c, t.0) && nets_shape_eq(
            nets,
            t.1,
        ),
{
    lemma_find_pin_idx_bounds(c.pins, pn);
    let pi = find_pin_idx(c.pins, pn);
    if 0 <= pi {
        let pin = c.pins[pi];
        lemma_find_net_idx_bounds(nets, pin.net);
        let ni = find_net_idx(nets, pin.net);
        if 0 <= ni {
            let net = nets[ni];
            lemma_find_node_idx_bounds(net.nodes, c.ref_des);
            let k = find_node_idx(net.nodes, c.ref_des);
            if 0 <= k {
                match resolve_pin_spec(c, nets, pn) {
                    Err(_) => {},
                    Ok(t) => {
                        assert(comp_identity_eq(c, t.0));
                        assert(nets_shape_eq(nets, t.1));
                    },
                }
            }
        }
    }
}

/// Resolving all listed pins keeps the component's identity and the nets'
/// shape.
proof fn lemma_resolve_pins_preserves(
    c: ComponentV,
    nets: Seq<NetV>,
    pins: Seq<Seq<char>>,
    acc: Seq<ModPortV>,
)
    ensures
        resolve_pins_spec(c, nets, pins, acc) matches Ok(t) ==> comp_identity_eq(c, t.0)
            && nets_shape_eq(nets, t.1),
    decreases pins.len(),
{
    if pins.len() > 0 {
        match resolve_pin_spec(c, nets, pins[0]) {
            Err(_) => {},
            Ok(t) => {
                lemma_resolve_pin_preserves(c, nets, pins[0]);
                lemma_resolve_pins_preserves(
                    t.0,
                    t.1,
                    pins.drop_first(),
                    match t.2 {
                        Some(p) => acc.push(p),
                        None => acc,
                    },
                );
                match resolve_pins_spec(
                    t.0,
                    t.1,
                    pins.drop_first(),
                    match t.2 {
                        Some(p) => acc.push(p),
                        None => acc,
                    },
                ) {
                    Err(_) => {},
                    Ok(t2) => {
                        lemma_comp_identity_trans(c, t.0, t2.0);
                    },
                }
            },
        }
    }
}

/// Direction resolution keeps the component list's length and every
/// component's identity, in order.
pub(crate) proof fn lemma_resolve_comps_preserves(
    done: Seq<ComponentV>,
    todo: Seq<ComponentV>,
    nets: Seq<NetV>,
    cfg: Seq<EntryV>,
    acc: Seq<ModPortV>,
)
    ensures
        resolve_comps_spec(done, todo, nets, cfg, acc) matches Ok(t) ==> {
            &&& t.0.len() == done.len() + todo.len()
            &&& forall|i: int| 0 <= i < done.len() ==> t.0[i] == done[i]
            &&& forall|i: int|
                0 <= i < todo.len() ==> comp_identity_eq(todo[i], #[trigger] t.0[done.len() + i])
            &&& nets_shape_eq(nets, t.1)
        },
    decreases todo.len(),
{
    if todo.len() > 0 {
        match match_spec(cfg, todo[0].ref_des, todo[0].part_id) {
            Some(RuleV::External(pins)) => {
                match resolve_pins_spec(todo[0], nets, pins, acc) {
                    Err(_) => {},
                    Ok(t) => {
                        lemma_resolve_pins_preserves(todo[0], nets, pins, acc);
                        lemma_resolve_comps_preserves(
                            done.push(t.0),
                            todo.drop_first(),
                            t.1,
                            cfg,
                            t.2,
                        );
                        lemma_resolve_step_indices(done, todo, t.0, resolve_comps_spec(done, todo, nets, cfg, acc));
                    },
                }
            },
            _ => {
                lemma_resolve_comps_preserves(done.push(todo[0]), todo.drop_first(), nets, cfg, acc);
                lemma_resolve_step_indices(done, todo, todo[0], resolve_comps_spec(done, todo, nets, cfg, acc));
            },
        }
    }
}

/// Index bookkeeping for one step of `lemma_resolve_comps_preserves`:
/// facts stated against `done.push(x)` and `todo.drop_first()` restated
/// against `done` and `todo`.
proof fn lemma_resolve_step_indices(
    done: Seq<ComponentV>,
    todo: Seq<ComponentV>,
    x: ComponentV,
    res: Result<(Seq<ComponentV>, Seq<NetV>, Seq<ModPortV>), ErrorV>,
)
    requires
        todo.len() > 0,
        comp_identity_eq(todo[0], x),
        x.pins.len() == todo[0].pins.len(),
        res matches Ok(t) ==> {
            &&& t.0.len() == done.push(x).len() + todo.drop_first().len()
            &&& forall|i: int| 0 <= i < done.push(x).len() ==> t.0[i] == done.push(x)[i]
            &&& forall|i: int|
                0 <= i < todo.drop_first().len() ==> comp_identity_eq(
                    todo.drop_first()[i],
                    #[trigger] t.0[done.push(x).len() + i],
                )
        },
    ensures
        res matches Ok(t) ==> {
            &&& t.0.len() == done.len() + todo.len()
            &&& forall|i: int| 0 <= i < done.len() ==> t.0[i] == done[i]
            &&& forall|i: int|
                0 <= i < todo.len() ==> comp_identity_eq(todo[i], #[trigger] t.0[done.len() + i])
        },
{
    match res {
        Err(_) => {},
        Ok(t) => {
            assert forall|i: int| 0 <= i < done.len() implies t.0[i] == done[i] by {
                assert(t.0[i] == done.push(x)[i]);
            }
            assert forall|i: int|
                0 <= i < todo.len() implies comp_identity_eq(
                todo[i],
                #[trigger] t.0[done.len() + i],
            ) by {
                if i == 0 {
                    assert(t.0[done.len() as int] == done.push(x)[done.len() as int]);
                } else {
                    assert(todo.drop_first()[i - 1] == todo[i]);
                    assert(done.push(x).len() + (i - 1) == done.len() + i);
                    assert(comp_identity_eq(
                        todo.drop_first()[i - 1],
                        t.0[done.push(x).len() + (i - 1)],
                    ));
                }
            }
        },
    }
}

/// The netlist after the three cleanup passes: decoupling capacitors,
/// pinless components, and components whose rule is `Skip`, in that
/// order, against the fixed power and ground net names.
pub open spec fn cleaned_netlist(nl: NetListV, cfg: Seq<EntryV>) -> NetListV {
    remove_skipped_components_spec(
        remove_pinless_components_spec(remove_decoupling_caps_spec(nl, seq!["VCC"@], seq!["GND"@])),
        cfg,
    )
}

/// The configuration after passive inference over the cleaned netlist.
pub open spec fn augmented_config(nl: NetListV, cfg: Seq<EntryV>) -> Seq<EntryV> {
    cfg + inferred_entries(cleaned_netlist(nl, cfg).components, seq!["VCC"@], seq!["GND"@])
}

/// What the whole pipeline emits for a netlist, a module name and a
/// configuration: cleanup, passive inference, direction resolution, and
/// rendering, or the first error on the way.
pub open spec fn write_verilog_spec(nl: NetListV, module_name: Seq<char>, cfg: Seq<EntryV>) -> Result<
    Seq<char>,
    ErrorV,
> {
    let nl3 = cleaned_netlist(nl, cfg);
    let cfg2 = augmented_config(nl, cfg);
    match collect_mod_ports_spec(nl3, cfg2) {
        Err(e) => Err(e),
        Ok(t) => match collect_comps_spec(t.0.components, cfg2, Seq::empty()) {
            Err(e) => Err(e),
            Ok(comps) => Ok(render_spec(verilog_name(module_name), t.1, t.0.nets, comps)),
        },
    }
}

/// Run the whole pipeline and render the module, as `write_verilog_spec`
/// lays it down.
pub fn write_verilog(netlist: NetList, module_name: &str, config: Config) -> (r: Result<
    String,
    Error,
>)
    ensures
        match r {
            Ok(out) => write_verilog_spec(netlist@, module_name@, config@) == Ok::<
                Seq<char>,
                ErrorV,
            >(out@),
            Err(e) => write_verilog_spec(netlist@, module_name@, config@) == Err::<
                Seq<char>,
                ErrorV,
            >(e@),
        },
{
    let mut netlist = netlist;
    let mut config = config;
    let ghost cfg0 = config@;
    let module_name = make_verilog_name(module_name);
    let vcc_nets: Vec<String> = vec!["VCC".to_owned()];
    let gnd_nets: Vec<String> = vec!["GND".to_owned()];
    proof {
        assert(views_of(vcc_nets@) =~= seq!["VCC"@]);
        assert(views_of(gnd_nets@) =~= seq!["GND"@]);
    }
    remove_decoupling_caps(&mut netlist, &vcc_nets, &gnd_nets);
    remove_pinless_components(&mut netlist);
    let ghost nl2 = netlist@;
    remove_skipped_components(&mut netlist, &config);
    let ghost nl3 = netlist@;
    add_pullups_and_pulldowns(&mut config, &netlist, &vcc_nets, &gnd_nets);
    let ghost cfg2 = config@;
    let mod_ports = match collect_mod_ports(&mut netlist, &config) {
        Ok(p) => p,
        Err(e) => {
            return Err(e);
        },
    };
    proof {
        lemma_resolve_comps_preserves(
            Seq::empty(),
            nl3.components,
            nl3.nets,
            cfg2,
            Seq::empty(),
        );
        lemma_keep_comps_elements(nl2.components, skipped_refs(nl2.components, cfg0));
        lemma_inferred_non_skip(nl3.components, seq!["VCC"@], seq!["GND"@]);
        let res = resolve_comps_spec(Seq::empty(), nl3.components, nl3.nets, cfg2, Seq::empty());
        assert(res is Ok);
        assert forall|i: int|
            0 <= i < netlist@.components.len() implies match_spec(
            config@,
            netlist@.components[i].ref_des,
            netlist@.components[i].part_id,
        ) != Some(RuleV::Skip) by {
            let rd = netlist@.components[i].ref_des;
            let pt = netlist@.components[i].part_id;
            match res {
                Ok(t) => {
                    assert(NetListV { components: t.0, nets: t.1 } == netlist@);
                    assert(netlist@.components == t.0);
                    assert(t.0[0 + i].ref_des == nl3.components[i].ref_des);
                    assert(t.0[0 + i].part_id == nl3.components[i].part_id);
                    assert(t.0[0 + i] == t.0[i]);
                },
                Err(_) => {
                    assert(false);
                },
            }
            assert(rd == nl3.components[i].ref_des && pt == nl3.components[i].part_id);
            let c = nl3.components[i];
            let j = choose|j: int|
                0 <= j < nl2.components.len() && nl2.components[j] == nl3.components[i];
            if match_spec(cfg0, rd, pt) == Some(RuleV::Skip) {
                lemma_skip_listed(nl2.components, cfg0, j);
                assert(false);
            }
            lemma_match_spec_append(cfg0, inferred_entries(nl3.components, seq!["VCC"@], seq!["GND"@]), rd, pt);
            if match_spec(cfg0, rd, pt) is None {
                lemma_match_non_skip(
                    inferred_entries(nl3.components, seq!["VCC"@], seq!["GND"@]),
                    rd,
                    pt,
                );
            }
        }
    }
    let comps = match collect_comps(&netlist, &config) {
        Ok(c) => c,
        Err(e) => {
            return Err(e);
        },
    };
    let out = render(&module_name, &mod_ports, &netlist.nets, &comps);
    Ok(out)
}

} // verus!