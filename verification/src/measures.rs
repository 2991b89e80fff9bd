//! How much of a unit, and of a whole project, matches: sizes and counts, and the
//! functions they were taken from.
use vstd::prelude::*;

use crate::objdiff::{ObjectScores, ObjectSide, SectionInfo, SectionKind, SymbolInfo, SymbolKind, UnitDiff, FULL_BITS};
use crate::order::{is_stable_order, lemma_selects_more, places_in_order, selects, stable_order};

verus! {

/// Match statistics for one unit, or for a whole project once summed.
#[derive(Clone, Copy)]
pub struct Measures {
    pub total_code: u64,
    pub matched_code: u64,
    pub total_data: u64,
    pub matched_data: u64,
    pub total_functions: u32,
    pub matched_functions: u32,
    pub total_units: u32,
}

/// The numbers of a `Measures`, of any size.
pub struct Tally {
    pub code: nat,
    pub matched_code: nat,
    pub data: nat,
    pub matched_data: nat,
    pub functions: nat,
    pub matched_functions: nat,
    pub units: nat,
}

impl View for Measures {
    type V = Tally;

    open spec fn view(&self) -> Tally {
        Tally {
            code: self.total_code as nat,
            matched_code: self.matched_code as nat,
            data: self.total_data as nat,
            matched_data: self.matched_data as nat,
            functions: self.total_functions as nat,
            matched_functions: self.matched_functions as nat,
            units: self.total_units as nat,
        }
    }
}

impl Tally {
    /// Nothing counted yet.
    pub open spec fn zero() -> Tally {
        Tally { code: 0, matched_code: 0, data: 0, matched_data: 0, functions: 0, matched_functions: 0, units: 0 }
    }

    /// Two tallies together.
    pub open spec fn plus(self, other: Tally) -> Tally {
        Tally {
            code: self.code + other.code,
            matched_code: self.matched_code + other.matched_code,
            data: self.data + other.data,
            matched_data: self.matched_data + other.matched_data,
            functions: self.functions + other.functions,
            matched_functions: self.matched_functions + other.matched_functions,
            units: self.units + other.units,
        }
    }

    /// Whether every number fits in its place in a `Measures`.
    pub open spec fn fits(self) -> bool {
        &&& self.code <= u64::MAX
        &&& self.matched_code <= u64::MAX
        &&& self.data <= u64::MAX
        &&& self.matched_data <= u64::MAX
        &&& self.functions <= u32::MAX
        &&& self.matched_functions <= u32::MAX
        &&& self.units <= u32::MAX
    }

    /// Whether nothing matches that was not counted.
    pub open spec fn is_consistent(self) -> bool {
        &&& self.matched_code <= self.code
        &&& self.matched_data <= self.data
        &&& self.matched_functions <= self.functions
    }
}

/// The sum of the first `n` tallies.
pub open spec fn tally_of(units: Seq<Measures>, n: nat) -> Tally
    decreases n,
{
    if n == 0 || n > units.len() {
        Tally::zero()
    } else {
        tally_of(units, (n - 1) as nat).plus(units[n - 1]@)
    }
}

/// A sum only grows.
proof fn lemma_tally_grows(units: Seq<Measures>, m: nat, n: nat)
    requires
        m <= n <= units.len(),
        tally_of(units, n).fits(),
    ensures
        tally_of(units, m).fits(),
    decreases n,
{
    if m < n {
        lemma_tally_grows(units, m, (n - 1) as nat);
    }
}

impl Measures {
    /// Measures of nothing.
    pub fn zero() -> (r: Measures)
        ensures
            r@ == Tally::zero(),
    {
        Measures {
            total_code: 0,
            matched_code: 0,
            total_data: 0,
            matched_data: 0,
            total_functions: 0,
            matched_functions: 0,
            total_units: 0,
        }
    }

    /// Adds another unit's measures, where the sums fit.
    pub fn checked_plus(&self, other: &Measures) -> (r: Option<Measures>)
        ensures
            r is Some <==> self@.plus(other@).fits(),
            r is Some ==> r->0@ == self@.plus(other@),
    {
        let total_code = self.total_code.checked_add(other.total_code);
        let matched_code = self.matched_code.checked_add(other.matched_code);
        let total_data = self.total_data.checked_add(other.total_data);
        let matched_data = self.matched_data.checked_add(other.matched_data);
        let total_functions = self.total_functions.checked_add(other.total_functions);
        let matched_functions = self.matched_functions.checked_add(other.matched_functions);
        let total_units = self.total_units.checked_add(other.total_units);
        match (total_code, matched_code, total_data, matched_data) {
            (Some(total_code), Some(matched_code), Some(total_data), Some(matched_data)) => match (
                total_functions,
                matched_functions,
                total_units,
            ) {
                (Some(total_functions), Some(matched_functions), Some(total_units)) => Some(
                    Measures {
                        total_code,
                        matched_code,
                        total_data,
                        matched_data,
                        total_functions,
                        matched_functions,
                        total_units,
                    },
                ),
                _ => None,
            },
            _ => None,
        }
    }

    /// Sums per-unit measures, where the sums fit.
    pub fn checked_total(units: &Vec<Measures>) -> (r: Option<Measures>)
        ensures
            r is Some <==> tally_of(units@, units@.len()).fits(),
            r is Some ==> r->0@ == tally_of(units@, units@.len()),
    {
        let mut m = Measures::zero();
        let n = units.len();
        let mut i: usize = 0;
        while i < n
            invariant
                i <= n,
                n == units@.len(),
                m@ == tally_of(units@, i as nat),
            decreases n - i,
        {
            match m.checked_plus(&units[i]) {
                Some(sum) => {
                    m = sum;
                },
                None => {
                    proof {
                        if tally_of(units@, n as nat).fits() {
                            lemma_tally_grows(units@, (i + 1) as nat, n as nat);
                        }
                    }
                    return None;
                },
            }
            i = i + 1;
        }
        Some(m)
    }

    /// Sums per-unit measures.
    pub fn total(units: &Vec<Measures>) -> (r: Measures)
        requires
            tally_of(units@, units@.len()).fits(),
        ensures
            r@ == tally_of(units@, units@.len()),
    {
        match Measures::checked_total(units) {
            Some(m) => m,
            None => Measures::zero(),
        }
    }
}

/// One function's entry in a progress report.
pub struct FnItem {
    pub name: String,
    pub size: u64,
    /// The bits of its match percentage; those of zero where it has none.
    pub match_percent: u32,
    /// The function's place in its section, where it does not lie before it.
    pub address: Option<u64>,
}

/// What a function's entry holds.
pub struct FnItemFacts {
    pub name: Seq<char>,
    pub size: u64,
    pub match_percent: u32,
    pub address: Option<u64>,
}

impl View for FnItem {
    type V = FnItemFacts;

    open spec fn view(&self) -> FnItemFacts {
        FnItemFacts { name: self.name@, size: self.size, match_percent: self.match_percent, address: self.address }
    }
}

/// What the entries of a list hold.
pub open spec fn item_facts(items: Seq<FnItem>) -> Seq<FnItemFacts> {
    Seq::new(items.len(), |i: int| items[i]@)
}

/// The bits of a score; an unscored one counts as zero.
pub open spec fn score_bits(score: Option<u32>) -> u32 {
    match score {
        Some(bits) => bits,
        None => 0,
    }
}

/// Whether a symbol counts as a function of section `k`: it lies there, has a
/// size, and is neither hidden, ignored nor a section itself.
pub open spec fn counts_in(symbol: SymbolInfo, k: int) -> bool {
    &&& symbol.section is Some
    &&& symbol.section->0 == k
    &&& symbol.size != 0
    &&& !symbol.hidden
    &&& !symbol.ignored
    &&& symbol.kind != SymbolKind::Section
}

/// Whether a section's symbols are counted: its kind is known, and it holds no
/// data.
pub open spec fn holds_functions(section: SectionInfo) -> bool {
    section.kind != SectionKind::Unknown && section.kind != SectionKind::Data && section.kind != SectionKind::Bss
}

/// Whether a section counts as data.
pub open spec fn holds_data(section: SectionInfo) -> bool {
    section.kind == SectionKind::Data || section.kind == SectionKind::Bss
}

/// Symbol `i` as an entry of section `k`.
pub open spec fn item_at(obj: ObjectSide, scores: ObjectScores, k: int, i: int) -> FnItemFacts {
    let symbol = obj.symbols@[i];
    let section = obj.sections@[k];
    FnItemFacts {
        name: symbol.name@,
        size: symbol.size,
        match_percent: match scores.symbols@[i].match_percent {
            Some(p) => p.bits,
            None => 0,
        },
        address: if symbol.address >= section.address {
            Some((symbol.address - section.address) as u64)
        } else {
            None
        },
    }
}

/// How many of an object's symbols have a score beside them.
pub open spec fn scored_symbols(obj: ObjectSide, scores: ObjectScores) -> nat {
    if obj.symbols@.len() <= scores.symbols@.len() {
        obj.symbols@.len()
    } else {
        scores.symbols@.len()
    }
}

/// How many of an object's sections have a score beside them.
pub open spec fn scored_sections(obj: ObjectSide, scores: ObjectScores) -> nat {
    if obj.sections@.len() <= scores.sections@.len() {
        obj.sections@.len()
    } else {
        scores.sections@.len()
    }
}

/// The entries of section `k` among the first `n` symbols.
pub open spec fn section_items(obj: ObjectSide, scores: ObjectScores, k: int, n: nat) -> Seq<FnItemFacts>
    decreases n,
{
    if n == 0 {
        Seq::empty()
    } else if counts_in(obj.symbols@[n - 1], k) {
        section_items(obj, scores, k, (n - 1) as nat).push(item_at(obj, scores, k, n - 1))
    } else {
        section_items(obj, scores, k, (n - 1) as nat)
    }
}

/// The entries of the first `k` sections.
pub open spec fn items_of(obj: ObjectSide, scores: ObjectScores, k: nat) -> Seq<FnItemFacts>
    decreases k,
{
    if k == 0 {
        Seq::empty()
    } else if holds_functions(obj.sections@[k - 1]) {
        items_of(obj, scores, (k - 1) as nat) + section_items(obj, scores, k - 1, scored_symbols(obj, scores))
    } else {
        items_of(obj, scores, (k - 1) as nat)
    }
}

/// What the first `n` entries tally.
pub open spec fn items_tally(items: Seq<FnItemFacts>, n: nat) -> Tally
    decreases n,
{
    if n == 0 || n > items.len() {
        Tally::zero()
    } else {
        let item = items[n - 1];
        let matched = item.match_percent == FULL_BITS;
        items_tally(items, (n - 1) as nat).plus(
            Tally {
                code: item.size as nat,
                matched_code: if matched { item.size as nat } else { 0 },
                data: 0,
                matched_data: 0,
                functions: 1,
                matched_functions: if matched { 1 } else { 0 },
                units: 0,
            },
        )
    }
}

/// What the data of the first `k` sections tallies.
pub open spec fn data_tally(obj: ObjectSide, scores: ObjectScores, k: nat) -> Tally
    decreases k,
{
    if k == 0 {
        Tally::zero()
    } else {
        let section = obj.sections@[k - 1];
        let matched = score_bits(scores.sections@[k - 1]) == FULL_BITS;
        let before = data_tally(obj, scores, (k - 1) as nat);
        if holds_data(section) {
            before.plus(
                Tally {
                    code: 0,
                    matched_code: 0,
                    data: section.size as nat,
                    matched_data: if matched { section.size as nat } else { 0 },
                    functions: 0,
                    matched_functions: 0,
                    units: 0,
                },
            )
        } else {
            before
        }
    }
}

/// One unit.
pub open spec fn one_unit() -> Tally {
    Tally { code: 0, matched_code: 0, data: 0, matched_data: 0, functions: 0, matched_functions: 0, units: 1 }
}

/// The object and the scores that measure a unit: the target's, and the base's
/// where there is none.
pub open spec fn measured_side(unit: UnitDiff) -> Option<(ObjectSide, ObjectScores)> {
    let obj = match unit.target {
        Some(o) => Some(o),
        None => unit.base,
    };
    let scores = match unit.target_scores {
        Some(d) => Some(d),
        None => unit.base_scores,
    };
    match (obj, scores) {
        (Some(o), Some(d)) => Some((o, d)),
        _ => None,
    }
}

/// A unit's functions in the order of its sections.
pub open spec fn unit_items(unit: UnitDiff) -> Seq<FnItemFacts> {
    match measured_side(unit) {
        Some((o, d)) => items_of(o, d, scored_sections(o, d)),
        None => Seq::empty(),
    }
}

/// What a unit tallies.
pub open spec fn unit_tally(unit: UnitDiff) -> Tally {
    let items = unit_items(unit);
    let data = match measured_side(unit) {
        Some((o, d)) => data_tally(o, d, scored_sections(o, d)),
        None => Tally::zero(),
    };
    items_tally(items, items.len()).plus(data).plus(one_unit())
}

/// What entries are listed by: their address, those without one last, and then
/// their size.
pub open spec fn item_key(item: FnItemFacts) -> (u64, u64) {
    (
        match item.address {
            Some(a) => a,
            None => u64::MAX,
        },
        item.size,
    )
}

/// The keys of all entries.
pub open spec fn item_keys(items: Seq<FnItemFacts>) -> Seq<(u64, u64)> {
    Seq::new(items.len(), |i: int| item_key(items[i]))
}

/// Whether `listed` holds `items` in the given order.
pub open spec fn is_listed_by(items: Seq<FnItemFacts>, listed: Seq<FnItemFacts>, order: Seq<usize>) -> bool {
    &&& is_stable_order(item_keys(items), order)
    &&& listed == Seq::new(items.len(), |i: int| items[order[i] as int])
}

/// Whether `listed` holds `items` sorted by their keys, those with equal keys
/// in their order.
pub open spec fn is_listing(items: Seq<FnItemFacts>, listed: Seq<FnItemFacts>) -> bool {
    exists|order: Seq<usize>| #[trigger] is_listed_by(items, listed, order)
}

fn counts(symbol: &SymbolInfo, k: usize) -> (r: bool)
    ensures
        r == counts_in(*symbol, k as int),
{
    let here = match symbol.section {
        Some(section) => section == k,
        None => false,
    };
    here && symbol.size != 0 && !symbol.hidden && !symbol.ignored && symbol.kind != SymbolKind::Section
}

fn fn_item(obj: &ObjectSide, scores: &ObjectScores, k: usize, i: usize) -> (r: FnItem)
    requires
        k < obj.sections@.len(),
        i < obj.symbols@.len(),
        i < scores.symbols@.len(),
    ensures
        r@ == item_at(*obj, *scores, k as int, i as int),
{
    let symbol = &obj.symbols[i];
    let section = &obj.sections[k];
    let match_percent = match &scores.symbols[i].match_percent {
        Some(p) => p.bits,
        None => 0,
    };
    let address = if symbol.address >= section.address {
        Some(symbol.address - section.address)
    } else {
        None
    };
    FnItem { name: symbol.name.as_str().to_owned(), size: symbol.size, match_percent, address }
}

fn collect_items(obj: &ObjectSide, scores: &ObjectScores) -> (r: Vec<FnItem>)
    ensures
        item_facts(r@) == items_of(*obj, *scores, scored_sections(*obj, *scores)),
{
    let sections = if obj.sections.len() <= scores.sections.len() {
        obj.sections.len()
    } else {
        scores.sections.len()
    };
    let symbols = if obj.symbols.len() <= scores.symbols.len() {
        obj.symbols.len()
    } else {
        scores.symbols.len()
    };
    let mut out: Vec<FnItem> = Vec::new();
    let mut k: usize = 0;
    assert(item_facts(out@) =~= Seq::empty());
    while k < sections
        invariant
            k <= sections,
            sections == scored_sections(*obj, *scores),
            symbols == scored_symbols(*obj, *scores),
            item_facts(out@) == items_of(*obj, *scores, k as nat),
        decreases sections - k,
    {
        let kind = obj.sections[k].kind;
        if kind != SectionKind::Unknown && kind != SectionKind::Data && kind != SectionKind::Bss {
            let ghost before = item_facts(out@);
            let mut i: usize = 0;
            assert(before + section_items(*obj, *scores, k as int, 0) =~= before);
            while i < symbols
                invariant
                    i <= symbols,
                    k < sections,
                    sections == scored_sections(*obj, *scores),
                    symbols == scored_symbols(*obj, *scores),
                    item_facts(out@) == before + section_items(*obj, *scores, k as int, i as nat),
                decreases symbols - i,
            {
                if counts(&obj.symbols[i], k) {
                    let ghost was = out@;
                    let item = fn_item(obj, scores, k, i);
                    let ghost facts = item@;
                    out.push(item);
                    assert(item_facts(out@) =~= item_facts(was).push(facts));
                    assert((before + section_items(*obj, *scores, k as int, i as nat)).push(facts) =~= before
                        + section_items(*obj, *scores, k as int, (i + 1) as nat));
                }
                i = i + 1;
            }
        }
        k = k + 1;
    }
    out
}

/// The functions a unit is measured by: the sized symbols of its code sections
/// that are neither hidden nor ignored, section by section.
pub fn unit_functions(unit: &UnitDiff) -> (r: Vec<FnItem>)
    ensures
        item_facts(r@) == unit_items(*unit),
{
    match (first_side(&unit.target, &unit.base), first_scores(&unit.target_scores, &unit.base_scores)) {
        (Some(obj), Some(scores)) => collect_items(obj, scores),
        _ => {
            let none: Vec<FnItem> = Vec::new();
            assert(item_facts(none@) =~= Seq::empty());
            none
        },
    }
}

fn first_side<'a>(a: &'a Option<ObjectSide>, b: &'a Option<ObjectSide>) -> (r: Option<&'a ObjectSide>)
    ensures
        match r {
            Some(o) => *a == Some(*o) || (*a is None && *b == Some(*o)),
            None => *a is None && *b is None,
        },
{
    match a {
        Some(o) => Some(o),
        None => match b {
            Some(o) => Some(o),
            None => None,
        },
    }
}

fn first_scores<'a>(a: &'a Option<ObjectScores>, b: &'a Option<ObjectScores>) -> (r: Option<&'a ObjectScores>)
    ensures
        match r {
            Some(d) => *a == Some(*d) || (*a is None && *b == Some(*d)),
            None => *a is None && *b is None,
        },
{
    match a {
        Some(d) => Some(d),
        None => match b {
            Some(d) => Some(d),
            None => None,
        },
    }
}

proof fn lemma_items_tally_grows(items: Seq<FnItemFacts>, m: nat, n: nat)
    requires
        m <= n <= items.len(),
        items_tally(items, n).fits(),
    ensures
        items_tally(items, m).fits(),
    decreases n,
{
    if m < n {
        lemma_items_tally_grows(items, m, (n - 1) as nat);
    }
}

fn measure_items(items: &Vec<FnItem>) -> (r: Option<Measures>)
    ensures
        r is Some <==> items_tally(item_facts(items@), items@.len()).fits(),
        r is Some ==> r->0@ == items_tally(item_facts(items@), items@.len()),
{
    let ghost facts = item_facts(items@);
    let mut m = Measures::zero();
    let n = items.len();
    let mut i: usize = 0;
    while i < n
        invariant
            i <= n,
            n == items@.len(),
            facts == item_facts(items@),
            m@ == items_tally(facts, i as nat),
        decreases n - i,
    {
        let item = &items[i];
        assert(facts[i as int] == item@);
        let matched = item.match_percent == FULL_BITS;
        let one = Measures {
            total_code: item.size,
            matched_code: if matched { item.size } else { 0 },
            total_data: 0,
            matched_data: 0,
            total_functions: 1,
            matched_functions: if matched { 1 } else { 0 },
            total_units: 0,
        };
        match m.checked_plus(&one) {
            Some(sum) => {
                m = sum;
            },
            None => {
                proof {
                    if items_tally(facts, n as nat).fits() {
                        lemma_items_tally_grows(facts, (i + 1) as nat, n as nat);
                    }
                }
                return None;
            },
        }
        i = i + 1;
    }
    Some(m)
}

proof fn lemma_data_tally_grows(obj: ObjectSide, scores: ObjectScores, m: nat, n: nat)
    requires
        m <= n,
        data_tally(obj, scores, n).fits(),
    ensures
        data_tally(obj, scores, m).fits(),
    decreases n,
{
    if m < n {
        lemma_data_tally_grows(obj, scores, m, (n - 1) as nat);
    }
}

fn measure_data(obj: &ObjectSide, scores: &ObjectScores) -> (r: Option<Measures>)
    ensures
        r is Some <==> data_tally(*obj, *scores, scored_sections(*obj, *scores)).fits(),
        r is Some ==> r->0@ == data_tally(*obj, *scores, scored_sections(*obj, *scores)),
{
    let sections = if obj.sections.len() <= scores.sections.len() {
        obj.sections.len()
    } else {
        scores.sections.len()
    };
    let mut m = Measures::zero();
    let mut k: usize = 0;
    while k < sections
        invariant
            k <= sections,
            sections == scored_sections(*obj, *scores),
            m@ == data_tally(*obj, *scores, k as nat),
        decreases sections - k,
    {
        let section = &obj.sections[k];
        if section.kind == SectionKind::Data || section.kind == SectionKind::Bss {
            let bits = match scores.sections[k] {
                Some(bits) => bits,
                None => 0,
            };
            let mut one = Measures::zero();
            one.total_data = section.size;
            if bits == FULL_BITS {
                one.matched_data = section.size;
            }
            match m.checked_plus(&one) {
                Some(sum) => {
                    m = sum;
                },
                None => {
                    proof {
                        if data_tally(*obj, *scores, sections as nat).fits() {
                            lemma_data_tally_grows(*obj, *scores, (k + 1) as nat, sections as nat);
                        }
                    }
                    return None;
                },
            }
        }
        k = k + 1;
    }
    Some(m)
}

fn sort_items(items: Vec<FnItem>) -> (r: Vec<FnItem>)
    ensures
        is_listing(item_facts(items@), item_facts(r@)),
{
    let ghost facts = item_facts(items@);
    let n = items.len();
    let mut keys: Vec<(u64, u64)> = Vec::new();
    let mut i: usize = 0;
    while i < n
        invariant
            i <= n,
            n == items@.len(),
            keys@.len() == i,
            facts == item_facts(items@),
            forall|j: int| 0 <= j < i ==> keys@[j] == item_key(#[trigger] facts[j]),
        decreases n - i,
    {
        let item = &items[i];
        assert(facts[i as int] == item@);
        let address = match item.address {
            Some(a) => a,
            None => u64::MAX,
        };
        keys.push((address, item.size));
        i = i + 1;
    }
    assert(keys@ =~= item_keys(facts));
    let order = stable_order(&keys);
    let mut out: Vec<FnItem> = Vec::new();
    let mut k: usize = 0;
    while k < n
        invariant
            k <= n,
            n == items@.len(),
            facts == item_facts(items@),
            is_stable_order(item_keys(facts), order@),
            out@.len() == k,
            forall|j: int| 0 <= j < k ==> (#[trigger] out@[j])@ == facts[order@[j] as int],
        decreases n - k,
    {
        let item = &items[order[k]];
        assert(facts[order@[k as int] as int] == item@);
        out.push(
            FnItem {
                name: item.name.as_str().to_owned(),
                size: item.size,
                match_percent: item.match_percent,
                address: item.address,
            },
        );
        k = k + 1;
    }
    assert(item_facts(out@) =~= Seq::new(facts.len(), |i: int| facts[order@[i] as int]));
    assert(is_listed_by(facts, item_facts(out@), order@));
    out
}

/// Computes a unit's measures and its per-function breakdown, where the sums
/// fit.
pub fn checked_unit_measures(unit: &UnitDiff) -> (r: Option<(Measures, Vec<FnItem>)>)
    ensures
        r is Some <==> unit_tally(*unit).fits(),
        match r {
            Some(pair) => pair.0@ == unit_tally(*unit) && is_listing(unit_items(*unit), item_facts(pair.1@)),
            None => true,
        },
{
    let items = unit_functions(unit);
    let data = match (first_side(&unit.target, &unit.base), first_scores(&unit.target_scores, &unit.base_scores)) {
        (Some(obj), Some(scores)) => match measure_data(obj, scores) {
            Some(data) => data,
            None => return None,
        },
        _ => Measures::zero(),
    };
    let code = match measure_items(&items) {
        Some(code) => code,
        None => return None,
    };
    let mut one = Measures::zero();
    one.total_units = 1;
    match code.checked_plus(&data) {
        Some(sum) => match sum.checked_plus(&one) {
            Some(measures) => Some((measures, sort_items(items))),
            None => None,
        },
        None => None,
    }
}

/// Computes a unit's measures and its per-function breakdown.
///
/// Sections of unknown kind are skipped, data and BSS contribute to the data
/// totals, and only sized, non-hidden, non-ignored symbols in code sections
/// count as functions. A symbol without a score counts as 0%.
pub fn unit_measures(unit: &UnitDiff) -> (r: (Measures, Vec<FnItem>))
    requires
        unit_tally(*unit).fits(),
    ensures
        r.0@ == unit_tally(*unit),
        is_listing(unit_items(*unit), item_facts(r.1@)),
{
    match checked_unit_measures(unit) {
        Some(r) => r,
        None => (Measures::zero(), Vec::new()),
    }
}

proof fn lemma_items_consistent(items: Seq<FnItemFacts>, n: nat)
    requires
        n <= items.len(),
    ensures
        items_tally(items, n).is_consistent(),
        items_tally(items, n).functions == n,
        items_tally(items, n).units == 0,
    decreases n,
{
    if n > 0 {
        lemma_items_consistent(items, (n - 1) as nat);
    }
}

proof fn lemma_data_consistent(obj: ObjectSide, scores: ObjectScores, k: nat)
    ensures
        data_tally(obj, scores, k).is_consistent(),
        data_tally(obj, scores, k).functions == 0,
        data_tally(obj, scores, k).units == 0,
    decreases k,
{
    if k > 0 {
        lemma_data_consistent(obj, scores, (k - 1) as nat);
    }
}

/// A unit never matches more than it has, counts as one unit, and counts each
/// function of its breakdown once.
pub proof fn law_unit_matches_at_most_what_it_has(unit: UnitDiff)
    ensures
        unit_tally(unit).is_consistent(),
        unit_tally(unit).units == 1,
        unit_tally(unit).functions == unit_items(unit).len(),
{
    let items = unit_items(unit);
    lemma_items_consistent(items, items.len());
    match measured_side(unit) {
        Some((o, d)) => {
            lemma_data_consistent(o, d, scored_sections(o, d));
        },
        None => {},
    }
}

/// A project that sums consistent units is consistent.
pub proof fn law_total_matches_at_most_what_it_has(units: Seq<Measures>, n: nat)
    requires
        n <= units.len(),
        forall|i: int| 0 <= i < units.len() ==> (#[trigger] units[i])@.is_consistent(),
    ensures
        tally_of(units, n).is_consistent(),
    decreases n,
{
    if n > 0 {
        law_total_matches_at_most_what_it_has(units, (n - 1) as nat);
    }
}

/// Totals add up: two lists of units together total what each totals.
pub proof fn law_totals_add_up(a: Seq<Measures>, b: Seq<Measures>)
    ensures
        tally_of(a + b, (a + b).len()) == tally_of(a, a.len()).plus(tally_of(b, b.len())),
{
    lemma_tally_concat(a, b, b.len());
}

proof fn lemma_tally_concat(a: Seq<Measures>, b: Seq<Measures>, n: nat)
    requires
        n <= b.len(),
    ensures
        tally_of(a + b, a.len() + n) == tally_of(a, a.len()).plus(tally_of(b, n)),
    decreases n,
{
    if n == 0 {
        lemma_tally_prefix(a, b, a.len());
    } else {
        lemma_tally_concat(a, b, (n - 1) as nat);
        assert((a + b)[a.len() + n - 1] == b[n - 1]);
    }
}

proof fn lemma_tally_prefix(a: Seq<Measures>, b: Seq<Measures>, n: nat)
    requires
        n <= a.len(),
    ensures
        tally_of(a + b, n) == tally_of(a, n),
    decreases n,
{
    if n > 0 {
        lemma_tally_prefix(a, b, (n - 1) as nat);
        assert((a + b)[n - 1] == a[n - 1]);
    }
}

/// The breakdown lists the functions by address and then by size.
pub proof fn law_breakdown_is_in_order(items: Seq<FnItemFacts>, listed: Seq<FnItemFacts>, i: int, j: int)
    requires
        is_listing(items, listed),
        0 <= i < j < listed.len(),
    ensures
        item_key(listed[i]).0 <= item_key(listed[j]).0,
        item_key(listed[i]).0 == item_key(listed[j]).0 ==> item_key(listed[i]).1 <= item_key(listed[j]).1,
{
    let order = choose|order: Seq<usize>| #[trigger] is_listed_by(items, listed, order);
    let keys = item_keys(items);
    assert(crate::order::key_before(keys[order[i] as int], order[i] as int, keys[order[j] as int], order[j] as int));
}

/// Whether an object and its scores are those that a unit is measured by: the
/// target's, or the base's where the unit has no target's.
pub open spec fn is_measured_by(unit: UnitDiff, obj: ObjectSide, scores: ObjectScores) -> bool {
    &&& unit.target == Some(obj) || (unit.target is None && unit.base == Some(obj))
    &&& unit.target_scores == Some(scores) || (unit.target_scores is None && unit.base_scores == Some(scores))
}

/// Whether symbol `i` is a function of section `k`: the section holds code, or
/// is a common one, and the symbol lies in it, has a size, is neither hidden nor
/// ignored, and is no section itself. Both have scores beside them.
pub open spec fn is_function_at(obj: ObjectSide, scores: ObjectScores, k: int, i: int) -> bool {
    &&& 0 <= k < obj.sections@.len() && k < scores.sections@.len()
    &&& 0 <= i < obj.symbols@.len() && i < scores.symbols@.len()
    &&& obj.sections@[k].kind == SectionKind::Code || obj.sections@[k].kind == SectionKind::Common
    &&& obj.symbols@[i].section is Some && obj.symbols@[i].section->0 == k
    &&& obj.symbols@[i].size > 0
    &&& !obj.symbols@[i].hidden && !obj.symbols@[i].ignored
    &&& obj.symbols@[i].kind != SymbolKind::Section
}

/// Whether an entry tells of symbol `i` in section `k`: its name, its size, the
/// bits of its score (zero where it has none), and where it lies behind the
/// section's begin.
pub open spec fn tells_of_symbol(
    item: FnItemFacts,
    obj: ObjectSide,
    scores: ObjectScores,
    k: int,
    i: int,
) -> bool {
    &&& item.name == obj.symbols@[i].name@
    &&& item.size == obj.symbols@[i].size
    &&& scores.symbols@[i].match_percent is Some ==> item.match_percent == scores.symbols@[i].match_percent->0.bits
    &&& scores.symbols@[i].match_percent is None ==> item.match_percent == 0
    &&& item.address is Some <==> obj.symbols@[i].address >= obj.sections@[k].address
    &&& item.address is Some ==> obj.sections@[k].address + item.address->0 == obj.symbols@[i].address
}

/// A unit's entries are exactly the functions of the object that it is measured
/// by, each once, section by section and within a section in the order of the
/// symbols; and each tells of its own symbol. The places that they come from are
/// given.
pub proof fn law_every_function_is_listed(unit: UnitDiff, obj: ObjectSide, scores: ObjectScores) -> (places: Seq<
    (int, int),
>)
    requires
        is_measured_by(unit, obj, scores),
    ensures
        places_in_order(places),
        forall|a: int| 0 <= a < places.len() ==> is_function_at(obj, scores, (#[trigger] places[a]).0, places[a].1),
        forall|k: int, i: int| #[trigger] is_function_at(obj, scores, k, i) ==> places.contains((k, i)),
        unit_items(unit).len() == places.len(),
        forall|a: int|
            0 <= a < places.len() ==> tells_of_symbol(
                #[trigger] unit_items(unit)[a],
                obj,
                scores,
                places[a].0,
                places[a].1,
            ),
{
    lemma_places(obj, scores, scored_sections(obj, scores))
}

proof fn lemma_section_places(obj: ObjectSide, scores: ObjectScores, k: int, n: nat) -> (order: Seq<int>)
    ensures
        selects(order, n as int, |i: int| counts_in(obj.symbols@[i], k)),
        section_items(obj, scores, k, n).len() == order.len(),
        forall|a: int|
            0 <= a < order.len() ==> #[trigger] section_items(obj, scores, k, n)[a] == item_at(
                obj,
                scores,
                k,
                order[a],
            ),
    decreases n,
{
    let wanted = |i: int| counts_in(obj.symbols@[i], k);
    if n == 0 {
        Seq::empty()
    } else {
        let before = lemma_section_places(obj, scores, k, (n - 1) as nat);
        lemma_selects_more(before, n - 1, wanted);
        if wanted(n - 1) {
            before.push(n - 1)
        } else {
            before
        }
    }
}

proof fn lemma_places(obj: ObjectSide, scores: ObjectScores, n: nat) -> (places: Seq<(int, int)>)
    requires
        n <= scored_sections(obj, scores),
    ensures
        places_in_order(places),
        forall|a: int|
            0 <= a < places.len() ==> (#[trigger] places[a]).0 < n && is_function_at(
                obj,
                scores,
                places[a].0,
                places[a].1,
            ),
        forall|k: int, i: int| k < n && #[trigger] is_function_at(obj, scores, k, i) ==> places.contains((k, i)),
        items_of(obj, scores, n).len() == places.len(),
        forall|a: int|
            0 <= a < places.len() ==> tells_of_symbol(
                #[trigger] items_of(obj, scores, n)[a],
                obj,
                scores,
                places[a].0,
                places[a].1,
            ),
    decreases n,
{
    if n == 0 {
        Seq::empty()
    } else {
        let k = n - 1;
        let before = lemma_places(obj, scores, (n - 1) as nat);
        if holds_functions(obj.sections@[k]) {
            let m = scored_symbols(obj, scores);
            let order = lemma_section_places(obj, scores, k, m);
            let wanted = |i: int| counts_in(obj.symbols@[i], k);
            let own = Seq::new(order.len(), |a: int| (k, order[a]));
            let places = before + own;
            let first = items_of(obj, scores, (n - 1) as nat);
            let section = section_items(obj, scores, k, m);
            assert(items_of(obj, scores, n) == first + section);
            assert forall|p: int, i: int| p < n && #[trigger] is_function_at(obj, scores, p, i) implies places.contains(
                (p, i),
            ) by {
                if p == k {
                    assert(wanted(i));
                    let a = choose|a: int| 0 <= a < order.len() && order[a] == i;
                    assert(places[before.len() + a] == (k, i));
                } else {
                    let a = choose|a: int| 0 <= a < before.len() && before[a] == (p, i);
                    assert(places[a] == (p, i));
                }
            }
            assert forall|a: int| 0 <= a < places.len() implies (#[trigger] places[a]).0 < n && is_function_at(
                obj,
                scores,
                places[a].0,
                places[a].1,
            ) by {
                if a >= before.len() {
                    let b = a - before.len();
                    assert(0 <= order[b] < m && wanted(order[b]));
                } else {
                    assert(places[a] == before[a]);
                }
            }
            assert forall|a: int| 0 <= a < places.len() implies tells_of_symbol(
                #[trigger] items_of(obj, scores, n)[a],
                obj,
                scores,
                places[a].0,
                places[a].1,
            ) by {
                if a >= before.len() {
                    let b = a - before.len();
                    assert((first + section)[a] == section[b]);
                } else {
                    assert((first + section)[a] == first[a]);
                    assert(places[a] == before[a]);
                }
            }
            assert forall|a: int, b: int|
                #![trigger places[a], places[b]]
                0 <= a < b < places.len() implies places[a].0 < places[b].0 || (places[a].0 == places[b].0
                && places[a].1 < places[b].1) by {
                if b < before.len() {
                    assert(places[a] == before[a] && places[b] == before[b]);
                } else if a < before.len() {
                    assert(places[a] == before[a]);
                    assert(places[b] == own[b - before.len()]);
                } else {
                    let c = a - before.len();
                    let d = b - before.len();
                    assert(order[c] < order[d]);
                }
            }
            places
        } else {
            assert forall|p: int, i: int| p < n && #[trigger] is_function_at(obj, scores, p, i) implies before.contains(
                (p, i),
            ) by {
                assert(p != k);
            }
            before
        }
    }
}

/// What numbers add up to.
pub open spec fn sum_of(s: Seq<nat>) -> nat
    decreases s.len(),
{
    if s.len() == 0 {
        0
    } else {
        sum_of(s.drop_last()) + s.last()
    }
}

/// The sizes of entries.
pub open spec fn sizes_of(items: Seq<FnItemFacts>) -> Seq<nat> {
    Seq::new(items.len(), |i: int| items[i].size as nat)
}

/// The entries whose score has the bits of 100.
spec fn full_ones(items: Seq<FnItemFacts>) -> Seq<FnItemFacts> {
    items.filter(|item: FnItemFacts| item.match_percent == 0x42c8_0000u32)
}

/// A unit counts each of its functions and adds up their sizes; of those it
/// counts as matched just the ones whose score has the bits of 100, and adds up
/// the sizes of just those. All match exactly where each has that score.
pub proof fn law_a_function_matches_at_the_bits_of_100(unit: UnitDiff)
    ensures
        unit_tally(unit).functions == unit_items(unit).len(),
        unit_tally(unit).code == sum_of(sizes_of(unit_items(unit))),
        unit_tally(unit).matched_functions == unit_items(unit).filter(
            |item: FnItemFacts| item.match_percent == 0x42c8_0000u32,
        ).len(),
        unit_tally(unit).matched_code == sum_of(
            sizes_of(unit_items(unit).filter(|item: FnItemFacts| item.match_percent == 0x42c8_0000u32)),
        ),
        unit_tally(unit).matched_functions == unit_tally(unit).functions <==> forall|i: int|
            0 <= i < unit_items(unit).len() ==> (#[trigger] unit_items(unit)[i]).match_percent == 0x42c8_0000u32,
{
    let items = unit_items(unit);
    lemma_items_count(items, items.len());
    assert(items.take(items.len() as int) =~= items);
    match measured_side(unit) {
        Some((o, d)) => lemma_data_apart(o, d, scored_sections(o, d)),
        None => {},
    }
    lemma_full_ones_all(items);
}

proof fn lemma_items_count(items: Seq<FnItemFacts>, n: nat)
    requires
        n <= items.len(),
    ensures
        items_tally(items, n).functions == n,
        items_tally(items, n).code == sum_of(sizes_of(items.take(n as int))),
        items_tally(items, n).matched_functions == full_ones(items.take(n as int)).len(),
        items_tally(items, n).matched_code == sum_of(sizes_of(full_ones(items.take(n as int)))),
        items_tally(items, n).data == 0,
        items_tally(items, n).matched_data == 0,
    decreases n,
{
    reveal(Seq::filter);
    let now = items.take(n as int);
    if n > 0 {
        lemma_items_count(items, (n - 1) as nat);
        let before = items.take(n - 1);
        assert(now.drop_last() =~= before);
        assert(sizes_of(now).drop_last() =~= sizes_of(before));
        let full = full_ones(now);
        if items[n - 1].match_percent == 0x42c8_0000u32 {
            assert(full =~= full_ones(before).push(items[n - 1]));
            assert(sizes_of(full).drop_last() =~= sizes_of(full_ones(before)));
        } else {
            assert(full =~= full_ones(before));
        }
    }
}

proof fn lemma_data_apart(obj: ObjectSide, scores: ObjectScores, k: nat)
    ensures
        data_tally(obj, scores, k).functions == 0,
        data_tally(obj, scores, k).matched_functions == 0,
        data_tally(obj, scores, k).code == 0,
        data_tally(obj, scores, k).matched_code == 0,
        data_tally(obj, scores, k).units == 0,
    decreases k,
{
    if k > 0 {
        lemma_data_apart(obj, scores, (k - 1) as nat);
    }
}

proof fn lemma_full_ones_all(items: Seq<FnItemFacts>)
    ensures
        full_ones(items).len() <= items.len(),
        full_ones(items).len() == items.len() <==> forall|i: int|
            0 <= i < items.len() ==> (#[trigger] items[i]).match_percent == 0x42c8_0000u32,
    decreases items.len(),
{
    reveal(Seq::filter);
    if items.len() > 0 {
        let before = items.drop_last();
        lemma_full_ones_all(before);
        if full_ones(items).len() == items.len() {
            assert forall|i: int| 0 <= i < items.len() implies (#[trigger] items[i]).match_percent
                == 0x42c8_0000u32 by {
                if i < items.len() - 1 {
                    assert(before[i] == items[i]);
                }
            }
        }
        if forall|i: int| 0 <= i < items.len() ==> (#[trigger] items[i]).match_percent == 0x42c8_0000u32 {
            assert(items[items.len() - 1].match_percent == 0x42c8_0000u32);
            assert forall|i: int| 0 <= i < before.len() implies (#[trigger] before[i]).match_percent
                == 0x42c8_0000u32 by {
                assert(before[i] == items[i]);
            }
        }
    }
}

/// A function that falls from 100 takes itself and its size out of what is
/// matched, and nothing out of what there is.
pub proof fn law_a_lowered_score_is_no_match(a: UnitDiff, b: UnitDiff, i: int, lowered: FnItemFacts)
    requires
        0 <= i < unit_items(a).len(),
        unit_items(a)[i].match_percent == 0x42c8_0000u32,
        lowered.match_percent != 0x42c8_0000u32,
        lowered.size == unit_items(a)[i].size,
        unit_items(b) == unit_items(a).update(i, lowered),
    ensures
        unit_tally(b).matched_functions + 1 == unit_tally(a).matched_functions,
        unit_tally(b).matched_code + lowered.size == unit_tally(a).matched_code,
        unit_tally(b).functions == unit_tally(a).functions,
        unit_tally(b).code == unit_tally(a).code,
{
    let items = unit_items(a);
    lemma_items_lowered(items, i, lowered, items.len());
    match measured_side(a) {
        Some((o, d)) => lemma_data_apart(o, d, scored_sections(o, d)),
        None => {},
    }
    match measured_side(b) {
        Some((o, d)) => lemma_data_apart(o, d, scored_sections(o, d)),
        None => {},
    }
}

proof fn lemma_items_lowered(items: Seq<FnItemFacts>, i: int, lowered: FnItemFacts, n: nat)
    requires
        0 <= i < items.len(),
        items[i].match_percent == 0x42c8_0000u32,
        lowered.match_percent != 0x42c8_0000u32,
        lowered.size == items[i].size,
        n <= items.len(),
    ensures
        ({
            let now = items_tally(items.update(i, lowered), n);
            let was = items_tally(items, n);
            &&& now.functions == was.functions && now.code == was.code
            &&& i < n ==> now.matched_functions + 1 == was.matched_functions && now.matched_code + lowered.size
                == was.matched_code
            &&& i >= n ==> now == was
        }),
    decreases n,
{
    if n > 0 {
        lemma_items_lowered(items, i, lowered, (n - 1) as nat);
    }
}

/// Of each of the first `n` sections its size, where it holds data, and zero where
/// it does not; where only full ones count, zero too where its score is another
/// than the bits of 100.
pub open spec fn data_sizes(obj: ObjectSide, scores: ObjectScores, n: nat, full: bool) -> Seq<nat> {
    Seq::new(
        n,
        |k: int|
            if (obj.sections@[k].kind == SectionKind::Data || obj.sections@[k].kind == SectionKind::Bss) && (full
                ==> scores.sections@[k] == Some(0x42c8_0000u32)) {
                obj.sections@[k].size as nat
            } else {
                0
            },
    )
}

/// A unit's data is what its data and BSS sections hold; of it that much
/// matches as is held by those whose score has the bits of 100. A section beside
/// which there is no score is passed over.
pub proof fn law_data_matches_at_the_bits_of_100(unit: UnitDiff, obj: ObjectSide, scores: ObjectScores, n: nat)
    requires
        is_measured_by(unit, obj, scores),
        n <= obj.sections@.len(),
        n <= scores.sections@.len(),
        n == obj.sections@.len() || n == scores.sections@.len(),
    ensures
        unit_tally(unit).data == sum_of(data_sizes(obj, scores, n, false)),
        unit_tally(unit).matched_data == sum_of(data_sizes(obj, scores, n, true)),
        unit_tally(unit).units == 1,
{
    let items = unit_items(unit);
    lemma_items_count(items, items.len());
    lemma_items_consistent(items, items.len());
    lemma_data_sizes(obj, scores, n);
    lemma_data_apart(obj, scores, n);
}

proof fn lemma_data_sizes(obj: ObjectSide, scores: ObjectScores, n: nat)
    ensures
        data_tally(obj, scores, n).data == sum_of(data_sizes(obj, scores, n, false)),
        data_tally(obj, scores, n).matched_data == sum_of(data_sizes(obj, scores, n, true)),
    decreases n,
{
    if n > 0 {
        lemma_data_sizes(obj, scores, (n - 1) as nat);
        assert(data_sizes(obj, scores, n, false).drop_last() =~= data_sizes(obj, scores, (n - 1) as nat, false));
        assert(data_sizes(obj, scores, n, true).drop_last() =~= data_sizes(obj, scores, (n - 1) as nat, true));
    }
}

/// A unit with no object, or with no scores, has nothing but itself to count.
pub proof fn law_an_unmeasured_unit_counts_itself(unit: UnitDiff)
    requires
        (unit.target is None && unit.base is None) || (unit.target_scores is None && unit.base_scores is None),
    ensures
        unit_items(unit).len() == 0,
        unit_tally(unit) == (Tally {
            code: 0,
            matched_code: 0,
            data: 0,
            matched_data: 0,
            functions: 0,
            matched_functions: 0,
            units: 1,
        }),
{
}

/// A total adds up each number of every unit.
pub proof fn law_a_total_adds_up_each_number(units: Seq<Measures>, n: nat)
    requires
        n <= units.len(),
    ensures
        tally_of(units, n).code == sum_of(Seq::new(n, |i: int| units[i].total_code as nat)),
        tally_of(units, n).matched_code == sum_of(Seq::new(n, |i: int| units[i].matched_code as nat)),
        tally_of(units, n).data == sum_of(Seq::new(n, |i: int| units[i].total_data as nat)),
        tally_of(units, n).matched_data == sum_of(Seq::new(n, |i: int| units[i].matched_data as nat)),
        tally_of(units, n).functions == sum_of(Seq::new(n, |i: int| units[i].total_functions as nat)),
        tally_of(units, n).matched_functions == sum_of(Seq::new(n, |i: int| units[i].matched_functions as nat)),
        tally_of(units, n).units == sum_of(Seq::new(n, |i: int| units[i].total_units as nat)),
    decreases n,
{
    if n > 0 {
        let m = (n - 1) as nat;
        law_a_total_adds_up_each_number(units, m);
        assert(Seq::new(n, |i: int| units[i].total_code as nat).drop_last() =~= Seq::new(
            m,
            |i: int| units[i].total_code as nat,
        ));
        assert(Seq::new(n, |i: int| units[i].matched_code as nat).drop_last() =~= Seq::new(
            m,
            |i: int| units[i].matched_code as nat,
        ));
        assert(Seq::new(n, |i: int| units[i].total_data as nat).drop_last() =~= Seq::new(
            m,
            |i: int| units[i].total_data as nat,
        ));
        assert(Seq::new(n, |i: int| units[i].matched_data as nat).drop_last() =~= Seq::new(
            m,
            |i: int| units[i].matched_data as nat,
        ));
        assert(Seq::new(n, |i: int| units[i].total_functions as nat).drop_last() =~= Seq::new(
            m,
            |i: int| units[i].total_functions as nat,
        ));
        assert(Seq::new(n, |i: int| units[i].matched_functions as nat).drop_last() =~= Seq::new(
            m,
            |i: int| units[i].matched_functions as nat,
        ));
        assert(Seq::new(n, |i: int| units[i].total_units as nat).drop_last() =~= Seq::new(
            m,
            |i: int| units[i].total_units as nat,
        ));
    }
}

/// The breakdown holds each entry once, those of lower addresses first, of the
/// same address the smaller first, and what is alike in both in the order of the
/// sections; those without an address come behind all others but for the one at
/// the greatest address. The place that each had before is given.
pub proof fn law_breakdown_holds_every_function(items: Seq<FnItemFacts>, listed: Seq<FnItemFacts>) -> (was: Seq<int>)
    requires
        is_listing(items, listed),
    ensures
        listed.len() == items.len(),
        was.len() == items.len(),
        forall|i: int| 0 <= i < was.len() ==> 0 <= #[trigger] was[i] < items.len() && listed[i] == items[was[i]],
        forall|k: int| 0 <= k < items.len() && k <= usize::MAX ==> #[trigger] was.contains(k),
        forall|i: int, j: int|
            #![trigger was[i], was[j]]
            0 <= i < j < listed.len() ==> was[i] != was[j] && {
                let a = listed[i];
                let b = listed[j];
                match (a.address, b.address) {
                    (Some(x), Some(y)) => x < y || (x == y && (a.size < b.size || (a.size == b.size && was[i]
                        < was[j]))),
                    (Some(_), None) => true,
                    (None, Some(y)) => y == u64::MAX && (a.size < b.size || (a.size == b.size && was[i] < was[j])),
                    (None, None) => a.size < b.size || (a.size == b.size && was[i] < was[j]),
                }
            },
{
    let order = choose|order: Seq<usize>| #[trigger] is_listed_by(items, listed, order);
    let keys = item_keys(items);
    let was = Seq::new(order.len(), |i: int| order[i] as int);
    assert forall|k: int| 0 <= k < items.len() && k <= usize::MAX implies #[trigger] was.contains(k) by {
        assert(order.contains(k as usize));
        let i = choose|i: int| 0 <= i < order.len() && order[i] == k as usize;
        assert(was[i] == k);
    }
    assert forall|i: int, j: int| #![trigger was[i], was[j]] 0 <= i < j < listed.len() implies was[i] != was[j] && {
        let a = listed[i];
        let b = listed[j];
        match (a.address, b.address) {
            (Some(x), Some(y)) => x < y || (x == y && (a.size < b.size || (a.size == b.size && was[i] < was[j]))),
            (Some(_), None) => true,
            (None, Some(y)) => y == u64::MAX && (a.size < b.size || (a.size == b.size && was[i] < was[j])),
            (None, None) => a.size < b.size || (a.size == b.size && was[i] < was[j]),
        }
    } by {
        assert(crate::order::key_before(
            keys[order[i] as int],
            order[i] as int,
            keys[order[j] as int],
            order[j] as int,
        ));
    }
    was
}

/// A tally fits just where measures can hold it.
pub proof fn law_a_tally_fits_where_measures_hold_it(t: Tally, m: Measures)
    ensures
        m@.fits(),
        t.fits() ==> exists|n: Measures| #[trigger] n@ == t,
{
    if t.fits() {
        let n = Measures {
            total_code: t.code as u64,
            matched_code: t.matched_code as u64,
            total_data: t.data as u64,
            matched_data: t.matched_data as u64,
            total_functions: t.functions as u32,
            matched_functions: t.matched_functions as u32,
            total_units: t.units as u32,
        };
        assert(n@ == t);
    }
}

} // verus!
