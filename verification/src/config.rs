use vstd::prelude::*;
use crate::netlist::Component;
use crate::strutil::{
    ends_with, ends_with_spec, find_sub_idx, lemma_find_sub_idx_at, lemma_find_sub_idx_none,
    lines, lines_spec, split_char, split_once_str, split_spec, starts_with, starts_with_spec,
    str_eq, trim, trim_spec, views_of,
};

verus! {

/// A matcher for components: either an exact reference designator or an
/// exact part-type string.
#[derive(Debug, Clone)]
pub enum PartPattern {
    RefDes(String),
    Part(String),
}

/// What to do with a matched component: delete it, expose the listed pins
/// as a module boundary, or instantiate it as a named primitive with pins
/// connected in the listed order.
#[derive(Debug, Clone)]
pub enum PartRule {
    Skip,
    External(Vec<String>),
    Module(String, Vec<String>),
}

/// One configuration entry: a pattern and the rule it selects.
#[derive(Debug, Clone)]
pub struct PartPatternRule {
    pub pattern: PartPattern,
    pub rule: PartRule,
}

/// Mathematical image of a `PartPattern`.
pub enum PatternV {
    RefDes(Seq<char>),
    Part(Seq<char>),
}

/// Mathematical image of a `PartRule`.
pub enum RuleV {
    Skip,
    External(Seq<Seq<char>>),
    Module(Seq<char>, Seq<Seq<char>>),
}

/// Mathematical image of a `PartPatternRule`.
pub struct EntryV {
    pub pattern: PatternV,
    pub rule: RuleV,
}

/// The failures this library reports, each carrying enough of the
/// offending input to locate it.
#[derive(Debug, Clone)]
pub enum Error {
    /// A configuration line holds no `=>`.
    MissingArrow,
    /// A pin token does not begin with `#`; carries the trimmed token.
    InvalidPin(String),
    /// A rule is neither `skip`, `module[..]` nor `name(..)`; carries the
    /// trimmed rule text.
    InvalidRule(String),
    /// The same pattern appears twice over all loaded sources.
    DuplicateRule(PartPattern),
    /// A rule names a pin number the component does not have.
    NoSuchPin { ref_des: String, pin: String },
    /// A component survived cleanup but no rule matches it.
    NoRule { ref_des: String, part_id: String },
}

/// Mathematical image of an `Error`.
pub enum ErrorV {
    MissingArrow,
    InvalidPin(Seq<char>),
    InvalidRule(Seq<char>),
    DuplicateRule(PatternV),
    NoSuchPin(Seq<char>, Seq<char>),
    NoRule(Seq<char>, Seq<char>),
}

impl View for PartPattern {
    type V = PatternV;

    open spec fn view(&self) -> PatternV {
        match self {
            PartPattern::RefDes(s) => PatternV::RefDes(s@),
            PartPattern::Part(s) => PatternV::Part(s@),
        }
    }
}

impl View for PartRule {
    type V = RuleV;

    open spec fn view(&self) -> RuleV {
        match self {
            PartRule::Skip => RuleV::Skip,
            PartRule::External(pins) => RuleV::External(views_of(pins@)),
            PartRule::Module(m, pins) => RuleV::Module(m@, views_of(pins@)),
        }
    }
}

impl View for PartPatternRule {
    type V = EntryV;

    open spec fn view(&self) -> EntryV {
        EntryV { pattern: self.pattern@, rule: self.rule@ }
    }
}

impl View for Error {
    type V = ErrorV;

    open spec fn view(&self) -> ErrorV {
        match self {
            Error::MissingArrow => ErrorV::MissingArrow,
            Error::InvalidPin(t) => ErrorV::InvalidPin(t@),
            Error::InvalidRule(t) => ErrorV::InvalidRule(t@),
            Error::DuplicateRule(p) => ErrorV::DuplicateRule(p@),
            Error::NoSuchPin { ref_des, pin } => ErrorV::NoSuchPin(ref_des@, pin@),
            Error::NoRule { ref_des, part_id } => ErrorV::NoRule(ref_des@, part_id@),
        }
    }
}

/// `input` with `prefix` and `suffix` removed, when it carries both and is
/// long enough to carry them without overlap.
pub open spec fn stripped_spec(s: Seq<char>, p: Seq<char>, x: Seq<char>) -> Option<Seq<char>> {
    if s.len() >= p.len() + x.len() && starts_with_spec(s, p) && ends_with_spec(s, x) {
        Some(s.subrange(p.len() as int, s.len() - x.len()))
    } else {
        None
    }
}

/// Remove `prefix` from the front of `input` and `suffix` from the back,
/// or report that one of them is not there.
pub fn strip_prefix_and_suffix<'a>(input: &'a str, prefix: &str, suffix: &str) -> (r: Option<
    &'a str,
>)
    ensures
        match r {
            Some(m) => stripped_spec(input@, prefix@, suffix@) == Some(m@),
            None => stripped_spec(input@, prefix@, suffix@) is None,
        },
{
    if !starts_with(input, prefix) {
        return None;
    }
    let ilen = input.unicode_len();
    let plen = prefix.unicode_len();
    let xlen = suffix.unicode_len();
    let rem = input.substring_char(plen, ilen);
    if !ends_with(rem, suffix) {
        proof {
            if input@.len() >= prefix@.len() + suffix@.len() && ends_with_spec(input@, suffix@) {
                assert(rem@.subrange(rem@.len() - suffix@.len(), rem@.len() as int) =~= input@
                    .subrange(input@.len() - suffix@.len(), input@.len() as int));
            }
        }
        return None;
    }
    let m = input.substring_char(plen, ilen - xlen);
    proof {
        assert(rem@.subrange(rem@.len() - suffix@.len(), rem@.len() as int) =~= input@.subrange(
            input@.len() - suffix@.len(),
            input@.len() as int,
        ));
    }
    Some(m)
}

/// How a pattern token reads: a bracketed token is a reference-designator
/// pattern, anything else a part-type pattern.
pub open spec fn parse_pattern_spec(s: Seq<char>) -> PatternV {
    let t = trim_spec(s);
    match stripped_spec(t, "["@, "]"@) {
        Some(m) => PatternV::RefDes(m),
        None => PatternV::Part(t),
    }
}

/// Parse the pattern side of a configuration line.
pub fn parse_pattern(input: &str) -> (r: PartPattern)
    ensures
        r@ == parse_pattern_spec(input@),
{
    let pattern = trim(input);
    if let Some(inner) = strip_prefix_and_suffix(pattern, "[", "]") {
        PartPattern::RefDes(inner.to_owned())
    } else {
        PartPattern::Part(pattern.to_owned())
    }
}

/// How a pin token reads: `#` followed by the pin number.
pub open spec fn parse_pin_spec(s: Seq<char>) -> Result<Seq<char>, ErrorV> {
    let t = trim_spec(s);
    if starts_with_spec(t, "#"@) {
        Ok(t.subrange("#"@.len() as int, t.len() as int))
    } else {
        Err(ErrorV::InvalidPin(t))
    }
}

/// Parse one pin token.
pub fn parse_pin(input: &str) -> (r: Result<String, Error>)
    ensures
        match r {
            Ok(p) => parse_pin_spec(input@) == Ok::<Seq<char>, ErrorV>(p@),
            Err(e) => parse_pin_spec(input@) == Err::<Seq<char>, ErrorV>(e@),
        },
{
    let t = trim(input);
    if starts_with(t, "#") {
        let tlen = t.unicode_len();
        let plen = "#".unicode_len();
        let pin = t.substring_char(plen, tlen);
        Ok(pin.to_owned())
    } else {
        Err(Error::InvalidPin(t.to_owned()))
    }
}

/// How a comma-separated list of pin tokens reads: the pins in order, or
/// the first token that fails.
pub open spec fn parse_pin_list(toks: Seq<Seq<char>>) -> Result<Seq<Seq<char>>, ErrorV>
    decreases toks.len(),
{
    if toks.len() == 0 {
        Ok(Seq::empty())
    } else {
        match parse_pin_spec(toks[0]) {
            Err(e) => Err(e),
            Ok(p) => match parse_pin_list(toks.drop_first()) {
                Err(e) => Err(e),
                Ok(ps) => Ok(seq![p] + ps),
            },
        }
    }
}

proof fn lemma_pin_list_first_err(toks: Seq<Seq<char>>, i: int, e: ErrorV, acc: Seq<Seq<char>>)
    requires
        0 <= i < toks.len(),
        acc.len() == i,
        forall|j: int| 0 <= j < i ==> parse_pin_spec(toks[j]) == Ok::<Seq<char>, ErrorV>(acc[j]),
        parse_pin_spec(toks[i]) == Err::<Seq<char>, ErrorV>(e),
    ensures
        parse_pin_list(toks) == Err::<Seq<Seq<char>>, ErrorV>(e),
    decreases i,
{
    if i == 0 {
    } else {
        lemma_pin_list_first_err(toks.drop_first(), i - 1, e, acc.drop_first());
    }
}

proof fn lemma_pin_list_all_ok(toks: Seq<Seq<char>>, acc: Seq<Seq<char>>)
    requires
        acc.len() == toks.len(),
        forall|j: int|
            0 <= j < toks.len() ==> parse_pin_spec(toks[j]) == Ok::<Seq<char>, ErrorV>(acc[j]),
    ensures
        parse_pin_list(toks) == Ok::<Seq<Seq<char>>, ErrorV>(acc),
    decreases toks.len(),
{
    if toks.len() == 0 {
        assert(acc =~= Seq::<Seq<char>>::empty());
    } else {
        lemma_pin_list_all_ok(toks.drop_first(), acc.drop_first());
        assert(seq![acc[0]] + acc.drop_first() =~= acc);
    }
}

/// How the pin-list text between brackets reads: empty text is an empty
/// list, anything else splits at commas.
pub open spec fn parse_pins_spec(s: Seq<char>) -> Result<Seq<Seq<char>>, ErrorV> {
    let t = trim_spec(s);
    if t.len() == 0 {
        Ok(Seq::empty())
    } else {
        parse_pin_list(split_spec(t, ','))
    }
}

/// Parse a comma-separated pin list.
pub fn parse_pins(input: &str) -> (r: Result<Vec<String>, Error>)
    ensures
        match r {
            Ok(v) => parse_pins_spec(input@) == Ok::<Seq<Seq<char>>, ErrorV>(views_of(v@)),
            Err(e) => parse_pins_spec(input@) == Err::<Seq<Seq<char>>, ErrorV>(e@),
        },
{
    let t = trim(input);
    if t.unicode_len() == 0 {
        let empty: Vec<String> = Vec::new();
        proof {
            assert(views_of(empty@) =~= Seq::<Seq<char>>::empty());
        }
        return Ok(empty);
    }
    let toks = split_char(t, ',');
    let ghost tv = split_spec(t@, ',');
    let mut pins: Vec<String> = Vec::new();
    let mut i: usize = 0;
    while i < toks.len()
        invariant
            t@ == trim_spec(input@),
            t@.len() != 0,
            tv == split_spec(t@, ','),
            views_of(toks@) == tv,
            i <= toks@.len(),
            views_of(pins@).len() == i,
            forall|j: int|
                0 <= j < i ==> parse_pin_spec(tv[j]) == Ok::<Seq<char>, ErrorV>(
                    views_of(pins@)[j],
                ),
        decreases toks@.len() - i,
    {
        match parse_pin(toks[i].as_str()) {
            Ok(p) => {
                let ghost prev = pins@;
                pins.push(p);
                proof {
                    assert(views_of(pins@) =~= views_of(prev).push(pins@.last()@));
                }
            },
            Err(e) => {
                proof {
                    lemma_pin_list_first_err(tv, i as int, e@, views_of(pins@));
                }
                return Err(e);
            },
        }
        i += 1;
    }
    proof {
        lemma_pin_list_all_ok(tv, views_of(pins@));
    }
    Ok(pins)
}

/// How the rule side of a configuration line reads: `skip`, a boundary
/// rule `module[..]`, or a primitive instantiation `name(..)`.
pub open spec fn parse_rule_spec(s: Seq<char>) -> Result<RuleV, ErrorV> {
    let t = trim_spec(s);
    if t == "skip"@ {
        Ok(RuleV::Skip)
    } else {
        match stripped_spec(t, "module["@, "]"@) {
            Some(inner) => match parse_pins_spec(inner) {
                Ok(ps) => Ok(RuleV::External(ps)),
                Err(e) => Err(e),
            },
            None => {
                let i = find_sub_idx(t, "("@);
                if i < 0 {
                    Err(ErrorV::InvalidRule(t))
                } else {
                    let rest = t.subrange(i + "("@.len(), t.len() as int);
                    if ends_with_spec(rest, ")"@) {
                        match parse_pins_spec(rest.subrange(0, rest.len() - ")"@.len())) {
                            Ok(ps) => Ok(RuleV::Module(t.subrange(0, i), ps)),
                            Err(e) => Err(e),
                        }
                    } else {
                        Err(ErrorV::InvalidRule(t))
                    }
                }
            },
        }
    }
}

/// Parse the rule side of a configuration line.
pub fn parse_rule(input: &str) -> (r: Result<PartRule, Error>)
    ensures
        match r {
            Ok(rule) => parse_rule_spec(input@) == Ok::<RuleV, ErrorV>(rule@),
            Err(e) => parse_rule_spec(input@) == Err::<RuleV, ErrorV>(e@),
        },
{
    let t = trim(input);
    if str_eq(t, "skip") {
        return Ok(PartRule::Skip);
    }
    if let Some(inner) = strip_prefix_and_suffix(t, "module[", "]") {
        return match parse_pins(inner) {
            Ok(ps) => Ok(PartRule::External(ps)),
            Err(e) => Err(e),
        };
    }
    match split_once_str(t, "(") {
        None => {
            proof {
                lemma_find_sub_idx_none(t@, "("@);
            }
            Err(Error::InvalidRule(t.to_owned()))
        },
        Some((module, rest)) => {
            proof {
                lemma_find_sub_idx_at(t@, "("@, module@.len() as int);
            }
            if ends_with(rest, ")") {
                let rlen = rest.unicode_len();
                let plen = ")".unicode_len();
                let pins_text = rest.substring_char(0, rlen - plen);
                match parse_pins(pins_text) {
                    Ok(ps) => Ok(PartRule::Module(module.to_owned(), ps)),
                    Err(e) => Err(e),
                }
            } else {
                Err(Error::InvalidRule(t.to_owned()))
            }
        },
    }
}

/// How one configuration line reads: a pattern, `=>`, and a rule.
pub open spec fn parse_line_spec(l: Seq<char>) -> Result<EntryV, ErrorV> {
    let i = find_sub_idx(l, "=>"@);
    if i < 0 {
        Err(ErrorV::MissingArrow)
    } else {
        let pat = parse_pattern_spec(l.subrange(0, i));
        match parse_rule_spec(l.subrange(i + "=>"@.len(), l.len() as int)) {
            Ok(r) => Ok(EntryV { pattern: pat, rule: r }),
            Err(e) => Err(e),
        }
    }
}

/// How a sequence of configuration lines reads: the entries in order, or
/// the first line's error.
pub open spec fn parse_lines_spec(ls: Seq<Seq<char>>) -> Result<Seq<EntryV>, ErrorV>
    decreases ls.len(),
{
    if ls.len() == 0 {
        Ok(Seq::empty())
    } else {
        match parse_line_spec(ls[0]) {
            Err(e) => Err(e),
            Ok(en) => match parse_lines_spec(ls.drop_first()) {
                Err(e) => Err(e),
                Ok(rest) => Ok(seq![en] + rest),
            },
        }
    }
}

/// How a whole configuration text reads.
pub open spec fn parse_spec(s: Seq<char>) -> Result<Seq<EntryV>, ErrorV> {
    parse_lines_spec(lines_spec(s))
}

/// The mathematical images of a sequence of entries.
pub open spec fn entry_views(es: Seq<PartPatternRule>) -> Seq<EntryV> {
    es.map_values(|e: PartPatternRule| e@)
}

proof fn lemma_lines_first_err(ls: Seq<Seq<char>>, i: int, e: ErrorV, acc: Seq<EntryV>)
    requires
        0 <= i < ls.len(),
        acc.len() == i,
        forall|j: int| 0 <= j < i ==> parse_line_spec(ls[j]) == Ok::<EntryV, ErrorV>(acc[j]),
        parse_line_spec(ls[i]) == Err::<EntryV, ErrorV>(e),
    ensures
        parse_lines_spec(ls) == Err::<Seq<EntryV>, ErrorV>(e),
    decreases i,
{
    if i == 0 {
    } else {
        lemma_lines_first_err(ls.drop_first(), i - 1, e, acc.drop_first());
    }
}

proof fn lemma_lines_all_ok(ls: Seq<Seq<char>>, acc: Seq<EntryV>)
    requires
        acc.len() == ls.len(),
        forall|j: int|
            0 <= j < ls.len() ==> parse_line_spec(ls[j]) == Ok::<EntryV, ErrorV>(acc[j]),
    ensures
        parse_lines_spec(ls) == Ok::<Seq<EntryV>, ErrorV>(acc),
    decreases ls.len(),
{
    if ls.len() == 0 {
        assert(acc =~= Seq::<EntryV>::empty());
    } else {
        lemma_lines_all_ok(ls.drop_first(), acc.drop_first());
        assert(seq![acc[0]] + acc.drop_first() =~= acc);
    }
}

/// Parse a whole configuration text into its entries.
pub fn parse(input: &str) -> (r: Result<Vec<PartPatternRule>, Error>)
    ensures
        match r {
            Ok(v) => parse_spec(input@) == Ok::<Seq<EntryV>, ErrorV>(entry_views(v@)),
            Err(e) => parse_spec(input@) == Err::<Seq<EntryV>, ErrorV>(e@),
        },
{
    let ls = lines(input);
    let ghost lv = lines_spec(input@);
    let mut entries: Vec<PartPatternRule> = Vec::new();
    let mut i: usize = 0;
    while i < ls.len()
        invariant
            views_of(ls@) == lv,
            lv == lines_spec(input@),
            i <= ls@.len(),
            entry_views(entries@).len() == i,
            forall|j: int|
                0 <= j < i ==> parse_line_spec(lv[j]) == Ok::<EntryV, ErrorV>(
                    entry_views(entries@)[j],
                ),
        decreases ls@.len() - i,
    {
        let line = &ls[i];
        match split_once_str(line.as_str(), "=>") {
            None => {
                proof {
                    lemma_find_sub_idx_none(line@, "=>"@);
                    lemma_lines_first_err(
                        lv,
                        i as int,
                        ErrorV::MissingArrow,
                        entry_views(entries@),
                    );
                }
                return Err(Error::MissingArrow);
            },
            Some((pat_text, rule_text)) => {
                proof {
                    lemma_find_sub_idx_at(line@, "=>"@, pat_text@.len() as int);
                }
                let pattern = parse_pattern(pat_text);
                match parse_rule(rule_text) {
                    Err(e) => {
                        proof {
                            lemma_lines_first_err(lv, i as int, e@, entry_views(entries@));
                        }
                        return Err(e);
                    },
                    Ok(rule) => {
                        let ghost prev = entries@;
                        entries.push(PartPatternRule { pattern, rule });
                        proof {
                            assert(entry_views(entries@) =~= entry_views(prev).push(
                                entries@.last()@,
                            ));
                        }
                    },
                }
            },
        }
        i += 1;
    }
    proof {
        lemma_lines_all_ok(lv, entry_views(entries@));
    }
    Ok(entries)
}

/// Some entry carries this pattern.
pub open spec fn pats_contain(es: Seq<EntryV>, p: PatternV) -> bool {
    exists|i: int| 0 <= i < es.len() && es[i].pattern == p
}

/// Index of the first entry of `new` whose pattern already stands in
/// `base` or in an earlier entry of `new`; `-1` when there is none.
pub open spec fn first_dup_idx(base: Seq<EntryV>, new: Seq<EntryV>) -> int
    decreases new.len(),
{
    if new.len() == 0 {
        -1
    } else if pats_contain(base, new[0].pattern) {
        0
    } else {
        let r = first_dup_idx(base.push(new[0]), new.drop_first());
        if r < 0 {
            -1
        } else {
            1 + r
        }
    }
}

proof fn lemma_pats_contain_concat(a: Seq<EntryV>, b: Seq<EntryV>, p: PatternV)
    ensures
        pats_contain(a + b, p) == (pats_contain(a, p) || pats_contain(b, p)),
{
    if pats_contain(a + b, p) {
        let i = choose|i: int| 0 <= i < (a + b).len() && (a + b)[i].pattern == p;
        if i < a.len() {
            assert(a[i].pattern == p);
        } else {
            assert(b[i - a.len()].pattern == p);
        }
    }
    if pats_contain(a, p) {
        let i = choose|i: int| 0 <= i < a.len() && a[i].pattern == p;
        assert((a + b)[i].pattern == p);
    }
    if pats_contain(b, p) {
        let i = choose|i: int| 0 <= i < b.len() && b[i].pattern == p;
        assert((a + b)[a.len() + i].pattern == p);
    }
}

proof fn lemma_first_dup_none(base: Seq<EntryV>, new: Seq<EntryV>)
    requires
        forall|k: int|
            0 <= k < new.len() ==> !pats_contain(base + new.take(k), new[k].pattern),
    ensures
        first_dup_idx(base, new) == -1,
    decreases new.len(),
{
    if new.len() > 0 {
        assert(base + new.take(0) =~= base);
        assert(!pats_contain(base, new[0].pattern));
        assert forall|k: int|
            0 <= k < new.drop_first().len() implies !pats_contain(
            base.push(new[0]) + new.drop_first().take(k),
            new.drop_first()[k].pattern,
        ) by {
            assert(base.push(new[0]) + new.drop_first().take(k) =~= base + new.take(k + 1));
            assert(new.drop_first()[k] == new[k + 1]);
        }
        lemma_first_dup_none(base.push(new[0]), new.drop_first());
    }
}

proof fn lemma_first_dup_at(base: Seq<EntryV>, new: Seq<EntryV>, k: int)
    requires
        0 <= k < new.len(),
        forall|j: int| 0 <= j < k ==> !pats_contain(base + new.take(j), new[j].pattern),
        pats_contain(base + new.take(k), new[k].pattern),
    ensures
        first_dup_idx(base, new) == k,
    decreases k,
{
    assert(base + new.take(0) =~= base);
    if k == 0 {
    } else {
        assert(!pats_contain(base, new[0].pattern));
        assert forall|j: int|
            0 <= j < k - 1 implies !pats_contain(
            base.push(new[0]) + new.drop_first().take(j),
            new.drop_first()[j].pattern,
        ) by {
            assert(base.push(new[0]) + new.drop_first().take(j) =~= base + new.take(j + 1));
            assert(new.drop_first()[j] == new[j + 1]);
        }
        assert(base.push(new[0]) + new.drop_first().take(k - 1) =~= base + new.take(k));
        assert(new.drop_first()[k - 1] == new[k]);
        lemma_first_dup_at(base.push(new[0]), new.drop_first(), k - 1);
    }
}

/// Rebuild a pattern; the copy reads the same.
fn clone_pattern(p: &PartPattern) -> (r: PartPattern)
    ensures
        r@ == p@,
{
    match p {
        PartPattern::RefDes(s) => PartPattern::RefDes(s.clone()),
        PartPattern::Part(s) => PartPattern::Part(s.clone()),
    }
}

/// Two patterns read the same.
fn pattern_eq(a: &PartPattern, b: &PartPattern) -> (r: bool)
    ensures
        r == (a@ == b@),
{
    match (a, b) {
        (PartPattern::RefDes(x), PartPattern::RefDes(y)) => str_eq(x.as_str(), y.as_str()),
        (PartPattern::Part(x), PartPattern::Part(y)) => str_eq(x.as_str(), y.as_str()),
        (PartPattern::RefDes(_), PartPattern::Part(_)) => false,
        (PartPattern::Part(_), PartPattern::RefDes(_)) => false,
    }
}

/// Whether the first `upto` entries of `rules` carry the pattern `p`.
fn contains_pattern(rules: &Vec<PartPatternRule>, upto: usize, p: &PartPattern) -> (r: bool)
    requires
        upto <= rules@.len(),
    ensures
        r == pats_contain(entry_views(rules@).take(upto as int), p@),
{
    let mut i: usize = 0;
    while i < upto
        invariant
            upto <= rules@.len(),
            i <= upto,
            forall|j: int| 0 <= j < i ==> entry_views(rules@)[j].pattern != p@,
        decreases upto - i,
    {
        if pattern_eq(&rules[i].pattern, p) {
            proof {
                assert(entry_views(rules@).take(upto as int)[i as int].pattern == p@);
            }
            return true;
        }
        i += 1;
    }
    proof {
        assert forall|j: int|
            0 <= j < upto implies entry_views(rules@).take(upto as int)[j].pattern != p@ by {
            assert(entry_views(rules@).take(upto as int)[j] == entry_views(rules@)[j]);
        }
    }
    false
}

/// An ordered collection of configuration entries; components are matched
/// against the patterns in insertion order, first match wins.
#[derive(Debug, Clone)]
pub struct Config {
    pub part_rules: Vec<PartPatternRule>,
}

impl View for Config {
    type V = Seq<EntryV>;

    open spec fn view(&self) -> Seq<EntryV> {
        entry_views(self.part_rules@)
    }
}

impl Default for Config {
    /// An empty configuration.
    fn default() -> (r: Self)
        ensures
            r@ == Seq::<EntryV>::empty(),
    {
        Config::new()
    }
}

impl Config {
    /// An empty configuration.
    pub fn new() -> (r: Self)
        ensures
            r@ == Seq::<EntryV>::empty(),
    {
        let c = Config { part_rules: Vec::new() };
        proof {
            assert(c@ =~= Seq::<EntryV>::empty());
        }
        c
    }

    /// Parse one configuration source and append its entries, rejecting a
    /// pattern that repeats within the source or against what was loaded
    /// before; on any error the configuration is left as it was.
    pub fn parse(&mut self, i: &str) -> (r: Result<(), Error>)
        ensures
            match r {
                Ok(()) => parse_spec(i@) matches Ok(entries) && first_dup_idx(
                    old(self)@,
                    entries,
                ) == -1 && final(self)@ == old(self)@ + entries,
                Err(e) => {
                    &&& final(self)@ == old(self)@
                    &&& match parse_spec(i@) {
                        Err(pe) => e@ == pe,
                        Ok(entries) => {
                            let k = first_dup_idx(old(self)@, entries);
                            &&& k >= 0
                            &&& e@ == ErrorV::DuplicateRule(entries[k].pattern)
                        },
                    }
                },
            },
    {
        let mut new_rules = match parse(i) {
            Ok(v) => v,
            Err(e) => {
                return Err(e);
            },
        };
        let ghost entries = entry_views(new_rules@);
        let mut k: usize = 0;
        while k < new_rules.len()
            invariant
                entries == entry_views(new_rules@),
                parse_spec(i@) == Ok::<Seq<EntryV>, ErrorV>(entries),
                k <= new_rules@.len(),
                forall|j: int|
                    0 <= j < k ==> !pats_contain(self@ + entries.take(j), entries[j].pattern),
            decreases new_rules@.len() - k,
        {
            let pat = &new_rules[k].pattern;
            let in_old = contains_pattern(&self.part_rules, self.part_rules.len(), pat);
            let in_new = contains_pattern(&new_rules, k, pat);
            if in_old || in_new {
                proof {
                    assert(entry_views(self.part_rules@).take(self.part_rules@.len() as int)
                        =~= self@);
                    lemma_pats_contain_concat(self@, entries.take(k as int), pat@);
                    lemma_first_dup_at(self@, entries, k as int);
                }
                return Err(Error::DuplicateRule(clone_pattern(pat)));
            }
            proof {
                assert(entry_views(self.part_rules@).take(self.part_rules@.len() as int)
                    =~= self@);
                lemma_pats_contain_concat(self@, entries.take(k as int), pat@);
            }
            k += 1;
        }
        proof {
            lemma_first_dup_none(self@, entries);
        }
        let ghost before = self.part_rules@;
        let ghost nr = new_rules@;
        self.part_rules.append(&mut new_rules);
        proof {
            assert(entry_views(before + nr) =~= entry_views(before) + entry_views(nr));
        }
        Ok(())
    }

    /// Parse a single configuration source into a fresh configuration.
    pub fn try_from(i: &str) -> (r: Result<Config, Error>)
        ensures
            match r {
                Ok(c) => parse_spec(i@) matches Ok(entries) && first_dup_idx(
                    Seq::<EntryV>::empty(),
                    entries,
                ) == -1 && c@ == entries,
                Err(e) => match parse_spec(i@) {
                    Err(pe) => e@ == pe,
                    Ok(entries) => {
                        let k = first_dup_idx(Seq::<EntryV>::empty(), entries);
                        &&& k >= 0
                        &&& e@ == ErrorV::DuplicateRule(entries[k].pattern)
                    },
                },
            },
    {
        let mut config = Config::new();
        match config.parse(i) {
            Ok(()) => {
                proof {
                    match parse_spec(i@) {
                        Ok(entries) => {
                            assert(Seq::<EntryV>::empty() + entries =~= entries);
                        },
                        Err(_) => {},
                    }
                }
                Ok(config)
            },
            Err(e) => Err(e),
        }
    }

    /// Look up the first entry whose pattern matches the component, by its
    /// reference designator or by its part type, in insertion order.
    pub fn match_component(&self, comp: &Component) -> (r: Option<&PartRule>)
        ensures
            match r {
                Some(rule) => match_spec(self@, comp.ref_des@, comp.part_id@) == Some(rule@),
                None => match_spec(self@, comp.ref_des@, comp.part_id@) is None,
            },
    {
        let mut i: usize = 0;
        while i < self.part_rules.len()
            invariant
                i <= self.part_rules@.len(),
                forall|j: int|
                    0 <= j < i ==> !pattern_matches(self@[j].pattern, comp.ref_des@, comp.part_id@),
            decreases self.part_rules@.len() - i,
        {
            let matched = match &self.part_rules[i].pattern {
                PartPattern::RefDes(rd) => str_eq(rd.as_str(), comp.ref_des.as_str()),
                PartPattern::Part(p) => str_eq(p.as_str(), comp.part_id.as_str()),
            };
            if matched {
                proof {
                    lemma_match_spec_at(self@, comp.ref_des@, comp.part_id@, i as int);
                }
                return Some(&self.part_rules[i].rule);
            }
            i += 1;
        }
        proof {
            lemma_match_spec_none(self@, comp.ref_des@, comp.part_id@);
        }
        None
    }

    /// Append a synthesized pull-up rule for this component's other pin.
    pub fn add_pullup(&mut self, ref_des: &str, pin: &str)
        ensures
            final(self)@ == old(self)@.push(pullup_entry(ref_des@, pin@)),
    {
        let pins = vec![pin.to_owned()];
        let ghost prev = self.part_rules@;
        self.part_rules.push(
            PartPatternRule {
                pattern: PartPattern::RefDes(ref_des.to_owned()),
                rule: PartRule::Module("pullup".to_owned(), pins),
            },
        );
        proof {
            assert(entry_views(self.part_rules@) =~= entry_views(prev).push(
                self.part_rules@.last()@,
            ));
            assert(views_of(self.part_rules@.last().rule->Module_1@) =~= seq![pin@]);
        }
    }

    /// Append a synthesized pull-down rule for this component's other pin.
    pub fn add_pulldown(&mut self, ref_des: &str, pin: &str)
        ensures
            final(self)@ == old(self)@.push(pulldown_entry(ref_des@, pin@)),
    {
        let pins = vec![pin.to_owned()];
        let ghost prev = self.part_rules@;
        self.part_rules.push(
            PartPatternRule {
                pattern: PartPattern::RefDes(ref_des.to_owned()),
                rule: PartRule::Module("pulldown".to_owned(), pins),
            },
        );
        proof {
            assert(entry_views(self.part_rules@) =~= entry_views(prev).push(
                self.part_rules@.last()@,
            ));
            assert(views_of(self.part_rules@.last().rule->Module_1@) =~= seq![pin@]);
        }
    }
}

/// A pattern matches a component with reference designator `rd` and part
/// type `part`.
pub open spec fn pattern_matches(p: PatternV, rd: Seq<char>, part: Seq<char>) -> bool {
    match p {
        PatternV::RefDes(s) => s == rd,
        PatternV::Part(s) => s == part,
    }
}

/// First-match-wins lookup over the ordered entries.
pub open spec fn match_spec(entries: Seq<EntryV>, rd: Seq<char>, part: Seq<char>) -> Option<
    RuleV,
>
    decreases entries.len(),
{
    if entries.len() == 0 {
        None
    } else if pattern_matches(entries[0].pattern, rd, part) {
        Some(entries[0].rule)
    } else {
        match_spec(entries.drop_first(), rd, part)
    }
}

pub proof fn lemma_match_spec_at(entries: Seq<EntryV>, rd: Seq<char>, part: Seq<char>, i: int)
    requires
        0 <= i < entries.len(),
        forall|j: int| 0 <= j < i ==> !pattern_matches(entries[j].pattern, rd, part),
        pattern_matches(entries[i].pattern, rd, part),
    ensures
        match_spec(entries, rd, part) == Some(entries[i].rule),
    decreases i,
{
    if i > 0 {
        lemma_match_spec_at(entries.drop_first(), rd, part, i - 1);
    }
}

pub proof fn lemma_match_spec_none(entries: Seq<EntryV>, rd: Seq<char>, part: Seq<char>)
    requires
        forall|j: int| 0 <= j < entries.len() ==> !pattern_matches(entries[j].pattern, rd, part),
    ensures
        match_spec(entries, rd, part) is None,
    decreases entries.len(),
{
    if entries.len() > 0 {
        lemma_match_spec_none(entries.drop_first(), rd, part);
    }
}

/// The entry that pull-up synthesis appends: the component's reference
/// designator, and a `pullup` primitive on the given pin.
pub open spec fn pullup_entry(rd: Seq<char>, pin: Seq<char>) -> EntryV {
    EntryV { pattern: PatternV::RefDes(rd), rule: RuleV::Module("pullup"@, seq![pin]) }
}

/// The entry that pull-down synthesis appends.
pub open spec fn pulldown_entry(rd: Seq<char>, pin: Seq<char>) -> EntryV {
    EntryV { pattern: PatternV::RefDes(rd), rule: RuleV::Module("pulldown"@, seq![pin]) }
}

/// Matching against extended entries: an entry list that already matches
/// keeps its answer when more entries are appended; one that does not
/// match answers as the appended entries do.
pub proof fn lemma_match_spec_append(
    cfg: Seq<EntryV>,
    ext: Seq<EntryV>,
    rd: Seq<char>,
    pt: Seq<char>,
)
    ensures
        match_spec(cfg, rd, pt) is Some ==> match_spec(cfg + ext, rd, pt) == match_spec(
            cfg,
            rd,
            pt,
        ),
        match_spec(cfg, rd, pt) is None ==> match_spec(cfg + ext, rd, pt) == match_spec(
            ext,
            rd,
            pt,
        ),
    decreases cfg.len(),
{
    if cfg.len() == 0 {
        assert(cfg + ext =~= ext);
    } else {
        assert((cfg + ext)[0] == cfg[0]);
        assert((cfg + ext).drop_first() =~= cfg.drop_first() + ext);
        lemma_match_spec_append(cfg.drop_first(), ext, rd, pt);
    }
}

/// An entry list in which no rule is `Skip` never answers `Skip`.
pub proof fn lemma_match_non_skip(es: Seq<EntryV>, rd: Seq<char>, pt: Seq<char>)
    requires
        forall|i: int| 0 <= i < es.len() ==> es[i].rule != RuleV::Skip,
    ensures
        match_spec(es, rd, pt) != Some(RuleV::Skip),
    decreases es.len(),
{
    if es.len() > 0 && !pattern_matches(es[0].pattern, rd, pt) {
        assert forall|i: int| 0 <= i < es.drop_first().len() implies es.drop_first()[i].rule
            != RuleV::Skip by {
            assert(es.drop_first()[i] == es[i + 1]);
        }
        lemma_match_non_skip(es.drop_first(), rd, pt);
    }
}

} // verus!
