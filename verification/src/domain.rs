use vstd::prelude::*;

verus! {

/// Name of a good, such as "Wheat" or "Bread".
#[derive(Debug, PartialEq, Eq, Hash)]
pub struct GoodId(pub String);

/// Name of a production source (a field, a bakery, ...).
#[derive(Debug, PartialEq, Eq, Hash)]
pub struct SourceId(pub String);

/// Name of a production process; a process is named after the good it makes.
#[derive(Debug, PartialEq, Eq, Hash)]
pub struct ProcessId(pub String);

pub type Level = u64;

pub type Experience = u64;

/// A span of time, in whole seconds.
pub type Duration = u64;

impl View for GoodId {
    type V = Seq<char>;

    open spec fn view(&self) -> Seq<char> {
        self.0@
    }
}

impl View for SourceId {
    type V = Seq<char>;

    open spec fn view(&self) -> Seq<char> {
        self.0@
    }
}

impl View for ProcessId {
    type V = Seq<char>;

    open spec fn view(&self) -> Seq<char> {
        self.0@
    }
}

impl Clone for GoodId {
    fn clone(&self) -> (r: Self)
        ensures
            r@ == self@,
    {
        GoodId(self.0.clone())
    }
}

impl Clone for SourceId {
    fn clone(&self) -> (r: Self)
        ensures
            r@ == self@,
    {
        SourceId(self.0.clone())
    }
}

impl Clone for ProcessId {
    fn clone(&self) -> (r: Self)
        ensures
            r@ == self@,
    {
        ProcessId(self.0.clone())
    }
}

impl GoodId {
    /// The text of the id, as it is displayed.
    pub fn to_display_string(&self) -> (r: String)
        ensures
            r@ == self@,
    {
        self.0.clone()
    }
}

/// A good as listed on the goods list.
#[derive(Debug)]
pub struct Good {
    pub id: GoodId,
    pub level: Level,
    pub xp: Experience,
    pub source: SourceId,
    pub price: u64,
    /// The image's URL, in its text form.
    pub image_url: Option<String>,
}

/// A production step: a source spends `duration` to turn `needs` into `product`.
#[derive(Debug)]
pub struct Process {
    pub id: ProcessId,
    pub source_id: SourceId,
    pub duration: Duration,
    pub goods: Vec<Good>,
    pub product: (GoodId, u64),
    pub needs: Vec<(GoodId, u64)>,
}

/// A production source with the time it has available.
#[derive(Debug)]
pub struct Source {
    pub id: SourceId,
    pub capacity: Duration,
}

/// How many times each process runs. Each process id occurs at most once.
#[derive(Debug)]
pub struct ProductionPlan {
    pub counts: Vec<(ProcessId, u64)>,
}

/// All known goods, processes and sources. Within each list the ids are distinct.
#[derive(Debug)]
pub struct Registry {
    pub goods: Vec<Good>,
    pub processes: Vec<Process>,
    pub sources: Vec<Source>,
}

/// A selection of targets and of usable sources over a registry.
/// `enabled_sources` and `target_goods` hold no id twice.
#[derive(Debug)]
pub struct Scenario<'a> {
    pub registry: &'a Registry,
    pub level: u64,
    pub enabled_sources: Vec<SourceId>,
    pub target_goods: Vec<GoodId>,
}

// ---------------------------------------------------------------------------
// Mathematical views
// ---------------------------------------------------------------------------

pub struct GoodView {
    pub id: Seq<char>,
    pub level: u64,
    pub xp: u64,
    pub source: Seq<char>,
    pub price: u64,
    pub image_url: Option<Seq<char>>,
}

pub struct ProcessView {
    pub id: Seq<char>,
    pub source_id: Seq<char>,
    pub duration: u64,
    pub goods: Seq<GoodView>,
    pub product: (Seq<char>, u64),
    pub needs: Seq<(Seq<char>, u64)>,
}

pub struct SourceView {
    pub id: Seq<char>,
    pub capacity: u64,
}

pub struct RegistryView {
    pub goods: Seq<GoodView>,
    pub processes: Seq<ProcessView>,
    pub sources: Seq<SourceView>,
}

pub struct ScenarioView {
    pub registry: RegistryView,
    pub level: u64,
    pub enabled: Seq<Seq<char>>,
    pub targets: Seq<Seq<char>>,
}

pub open spec fn gids(v: Seq<GoodId>) -> Seq<Seq<char>> {
    v.map_values(|g: GoodId| g@)
}

pub open spec fn sids(v: Seq<SourceId>) -> Seq<Seq<char>> {
    v.map_values(|g: SourceId| g@)
}

pub open spec fn pids(v: Seq<ProcessId>) -> Seq<Seq<char>> {
    v.map_values(|g: ProcessId| g@)
}

pub open spec fn amounts_view(v: Seq<(GoodId, u64)>) -> Seq<(Seq<char>, u64)> {
    v.map_values(|x: (GoodId, u64)| (x.0@, x.1))
}

pub open spec fn goods_view(v: Seq<Good>) -> Seq<GoodView> {
    v.map_values(|g: Good| g@)
}

pub open spec fn processes_view(v: Seq<Process>) -> Seq<ProcessView> {
    v.map_values(|p: Process| p@)
}

pub open spec fn sources_view(v: Seq<Source>) -> Seq<SourceView> {
    v.map_values(|s: Source| s@)
}

pub open spec fn opt_string_view(o: Option<String>) -> Option<Seq<char>> {
    match o {
        Some(s) => Some(s@),
        None => None,
    }
}

impl View for Good {
    type V = GoodView;

    open spec fn view(&self) -> GoodView {
        GoodView {
            id: self.id@,
            level: self.level,
            xp: self.xp,
            source: self.source@,
            price: self.price,
            image_url: opt_string_view(self.image_url),
        }
    }
}

impl View for Process {
    type V = ProcessView;

    open spec fn view(&self) -> ProcessView {
        ProcessView {
            id: self.id@,
            source_id: self.source_id@,
            duration: self.duration,
            goods: goods_view(self.goods@),
            product: (self.product.0@, self.product.1),
            needs: amounts_view(self.needs@),
        }
    }
}

impl View for Source {
    type V = SourceView;

    open spec fn view(&self) -> SourceView {
        SourceView { id: self.id@, capacity: self.capacity }
    }
}

impl View for Registry {
    type V = RegistryView;

    open spec fn view(&self) -> RegistryView {
        RegistryView {
            goods: goods_view(self.goods@),
            processes: processes_view(self.processes@),
            sources: sources_view(self.sources@),
        }
    }
}

impl<'a> View for Scenario<'a> {
    type V = ScenarioView;

    open spec fn view(&self) -> ScenarioView {
        ScenarioView {
            registry: self.registry@,
            level: self.level,
            enabled: sids(self.enabled_sources@),
            targets: gids(self.target_goods@),
        }
    }
}

pub open spec fn good_ids_of(g: Seq<GoodView>) -> Seq<Seq<char>> {
    g.map_values(|x: GoodView| x.id)
}

pub open spec fn process_ids_of(p: Seq<ProcessView>) -> Seq<Seq<char>> {
    p.map_values(|x: ProcessView| x.id)
}

pub open spec fn source_ids_of(s: Seq<SourceView>) -> Seq<Seq<char>> {
    s.map_values(|x: SourceView| x.id)
}

impl RegistryView {
    /// No good, process or source id occurs twice.
    pub open spec fn wf(self) -> bool {
        &&& good_ids_of(self.goods).no_duplicates()
        &&& process_ids_of(self.processes).no_duplicates()
        &&& source_ids_of(self.sources).no_duplicates()
    }
}

impl ScenarioView {
    pub open spec fn wf(self) -> bool {
        &&& self.registry.wf()
        &&& self.enabled.no_duplicates()
        &&& self.targets.no_duplicates()
    }
}

impl Registry {
    pub open spec fn wf(&self) -> bool {
        self@.wf()
    }
}

impl<'a> Scenario<'a> {
    pub open spec fn wf(&self) -> bool {
        self@.wf()
    }
}

// ---------------------------------------------------------------------------
// Copies and lookups
// ---------------------------------------------------------------------------

impl Clone for Good {
    fn clone(&self) -> (r: Self)
        ensures
            r@ == self@,
    {
        let image_url = match &self.image_url {
            Some(u) => Some(u.clone()),
            None => None,
        };
        Good {
            id: self.id.clone(),
            level: self.level,
            xp: self.xp,
            source: self.source.clone(),
            price: self.price,
            image_url,
        }
    }
}

/// A copy of a list of (good, amount) pairs.
pub fn copy_amounts(v: &Vec<(GoodId, u64)>) -> (r: Vec<(GoodId, u64)>)
    ensures
        amounts_view(r@) == amounts_view(v@),
{
    let mut r: Vec<(GoodId, u64)> = Vec::new();
    let mut i: usize = 0;
    while i < v.len()
        invariant
            i <= v@.len(),
            amounts_view(r@) == amounts_view(v@.take(i as int)),
        decreases v@.len() - i,
    {
        let ghost old_r = r@;
        let g = v[i].0.clone();
        r.push((g, v[i].1));
        assert(amounts_view(r@) =~= amounts_view(old_r).push((v@[i as int].0@, v@[i as int].1)));
        assert(amounts_view(v@.take(i + 1)) =~= amounts_view(v@.take(i as int)).push(
            (v@[i as int].0@, v@[i as int].1),
        ));
        i = i + 1;
    }
    assert(v@.take(v@.len() as int) =~= v@);
    r
}

impl Clone for Process {
    fn clone(&self) -> (r: Self)
        ensures
            r@ == self@,
    {
        let goods = self.goods.clone();
        assert(goods_view(goods@) =~= goods_view(self.goods@));
        Process {
            id: self.id.clone(),
            source_id: self.source_id.clone(),
            duration: self.duration,
            goods,
            product: (self.product.0.clone(), self.product.1),
            needs: copy_amounts(&self.needs),
        }
    }
}

impl Clone for Source {
    fn clone(&self) -> (r: Self)
        ensures
            r@ == self@,
    {
        Source { id: self.id.clone(), capacity: self.capacity }
    }
}

pub fn copy_good_ids(v: &Vec<GoodId>) -> (r: Vec<GoodId>)
    ensures
        gids(r@) == gids(v@),
{
    let r = v.clone();
    assert(gids(r@) =~= gids(v@));
    r
}

pub fn copy_source_ids(v: &Vec<SourceId>) -> (r: Vec<SourceId>)
    ensures
        sids(r@) == sids(v@),
{
    let r = v.clone();
    assert(sids(r@) =~= sids(v@));
    r
}

pub fn contains_good(v: &Vec<GoodId>, x: &GoodId) -> (r: bool)
    ensures
        r == gids(v@).contains(x@),
{
    let mut i: usize = 0;
    while i < v.len()
        invariant
            i <= v@.len(),
            forall|j: int| 0 <= j < i ==> v@[j]@ != x@,
        decreases v@.len() - i,
    {
        if v[i].0 == x.0 {
            assert(gids(v@)[i as int] == x@);
            return true;
        }
        i = i + 1;
    }
    assert(!gids(v@).contains(x@)) by {
        if gids(v@).contains(x@) {
            let j = choose|j: int| 0 <= j < gids(v@).len() && gids(v@)[j] == x@;
            assert(v@[j]@ == x@);
        }
    }
    false
}

pub fn contains_source(v: &Vec<SourceId>, x: &SourceId) -> (r: bool)
    ensures
        r == sids(v@).contains(x@),
{
    let mut i: usize = 0;
    while i < v.len()
        invariant
            i <= v@.len(),
            forall|j: int| 0 <= j < i ==> v@[j]@ != x@,
        decreases v@.len() - i,
    {
        if v[i].0 == x.0 {
            assert(sids(v@)[i as int] == x@);
            return true;
        }
        i = i + 1;
    }
    assert(!sids(v@).contains(x@)) by {
        if sids(v@).contains(x@) {
            let j = choose|j: int| 0 <= j < sids(v@).len() && sids(v@)[j] == x@;
            assert(v@[j]@ == x@);
        }
    }
    false
}

pub fn contains_process(v: &Vec<ProcessId>, x: &ProcessId) -> (r: bool)
    ensures
        r == pids(v@).contains(x@),
{
    let mut i: usize = 0;
    while i < v.len()
        invariant
            i <= v@.len(),
            forall|j: int| 0 <= j < i ==> v@[j]@ != x@,
        decreases v@.len() - i,
    {
        if v[i].0 == x.0 {
            assert(pids(v@)[i as int] == x@);
            return true;
        }
        i = i + 1;
    }
    assert(!pids(v@).contains(x@)) by {
        if pids(v@).contains(x@) {
            let j = choose|j: int| 0 <= j < pids(v@).len() && pids(v@)[j] == x@;
            assert(v@[j]@ == x@);
        }
    }
    false
}

/// The first source in `s` named `id`.
pub open spec fn source_named(s: Seq<SourceView>, id: Seq<char>) -> Option<SourceView>
    decreases s.len(),
{
    if s.len() == 0 {
        None
    } else if s[0].id == id {
        Some(s[0])
    } else {
        source_named(s.drop_first(), id)
    }
}

/// The first good in `g` named `id`.
pub open spec fn good_named(g: Seq<GoodView>, id: Seq<char>) -> Option<GoodView>
    decreases g.len(),
{
    if g.len() == 0 {
        None
    } else if g[0].id == id {
        Some(g[0])
    } else {
        good_named(g.drop_first(), id)
    }
}

/// The first process in `p` named `id`.
pub open spec fn process_named(p: Seq<ProcessView>, id: Seq<char>) -> Option<ProcessView>
    decreases p.len(),
{
    if p.len() == 0 {
        None
    } else if p[0].id == id {
        Some(p[0])
    } else {
        process_named(p.drop_first(), id)
    }
}

impl Registry {
    /// Index of the good named `id`, if there is one.
    pub fn find_good(&self, id: &GoodId) -> (r: Option<usize>)
        ensures
            match r {
                Some(k) => k < self.goods@.len() && good_named(self@.goods, id@) == Some(
                    self.goods@[k as int]@,
                ) && self.goods@[k as int]@.id == id@,
                None => good_named(self@.goods, id@) == None::<GoodView>,
            },
    {
        let ghost g = self@.goods;
        let mut i: usize = 0;
        assert(g.skip(0) =~= g);
        while i < self.goods.len()
            invariant
                i <= self.goods@.len(),
                g == self@.goods,
                good_named(g, id@) == good_named(g.skip(i as int), id@),
            decreases self.goods@.len() - i,
        {
            assert(g.skip(i as int)[0] == self.goods@[i as int]@);
            if self.goods[i].id.0 == id.0 {
                return Some(i);
            }
            assert(g.skip(i as int).drop_first() =~= g.skip(i + 1));
            i = i + 1;
        }
        None
    }

    /// Index of the process named `id`, if there is one.
    pub fn find_process(&self, id: &ProcessId) -> (r: Option<usize>)
        ensures
            match r {
                Some(k) => k < self.processes@.len() && process_named(self@.processes, id@)
                    == Some(self.processes@[k as int]@) && self.processes@[k as int]@.id == id@,
                None => process_named(self@.processes, id@) == None::<ProcessView>,
            },
    {
        let ghost p = self@.processes;
        let mut i: usize = 0;
        assert(p.skip(0) =~= p);
        while i < self.processes.len()
            invariant
                i <= self.processes@.len(),
                p == self@.processes,
                process_named(p, id@) == process_named(p.skip(i as int), id@),
            decreases self.processes@.len() - i,
        {
            assert(p.skip(i as int)[0] == self.processes@[i as int]@);
            if self.processes[i].id.0 == id.0 {
                return Some(i);
            }
            assert(p.skip(i as int).drop_first() =~= p.skip(i + 1));
            i = i + 1;
        }
        None
    }

    /// Index of the source named `id`, if there is one.
    pub fn find_source(&self, id: &SourceId) -> (r: Option<usize>)
        ensures
            match r {
                Some(k) => k < self.sources@.len() && source_named(self@.sources, id@) == Some(
                    self.sources@[k as int]@,
                ) && self.sources@[k as int]@.id == id@,
                None => source_named(self@.sources, id@) == None::<SourceView>,
            },
    {
        let ghost s = self@.sources;
        let mut i: usize = 0;
        assert(s.skip(0) =~= s);
        while i < self.sources.len()
            invariant
                i <= self.sources@.len(),
                s == self@.sources,
                source_named(s, id@) == source_named(s.skip(i as int), id@),
            decreases self.sources@.len() - i,
        {
            assert(s.skip(i as int)[0] == self.sources@[i as int]@);
            if self.sources[i].id.0 == id.0 {
                return Some(i);
            }
            assert(s.skip(i as int).drop_first() =~= s.skip(i + 1));
            i = i + 1;
        }
        None
    }
}

} // verus!
