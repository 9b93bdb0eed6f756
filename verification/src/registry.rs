//! The model registry: which loaded model each name and alias routes to.
use vstd::prelude::*;
use vstd::hash_map::StringHashMap;
use crate::json::{J, JV};
use crate::models::{ModelInfo, ModelInfoV};
use crate::text::{owned, str_eq, views};

verus! {

/// The loaded models' identities, the name and alias index, and the default model.
pub struct Registry {
    models: Vec<ModelInfo>,
    names: StringHashMap<usize>,
    default: usize,
}

pub struct RegistryV {
    pub models: Seq<ModelInfoV>,
    pub names: Map<Seq<char>, usize>,
    pub default: usize,
}

pub open spec fn info_views(s: Seq<ModelInfo>) -> Seq<ModelInfoV> {
    Seq::new(s.len(), |i: int| s[i]@)
}

impl View for Registry {
    type V = RegistryV;

    closed spec fn view(&self) -> RegistryV {
        RegistryV { models: info_views(self.models@), names: self.names@, default: self.default }
    }
}

/// A model's canonical name followed by its aliases.
pub open spec fn idents(m: ModelInfoV) -> Seq<Seq<char>> {
    seq![m.name] + m.aliases
}

pub open spec fn duplicate_error(name: Seq<char>) -> Seq<char> {
    "duplicate model name or alias "@ + name + "; load one checkpoint per model"@
}

/// `names` with `ids[k..]` routed to `index`, failing on the first name already taken.
pub open spec fn add_names(names: Map<Seq<char>, usize>, ids: Seq<Seq<char>>, index: usize, k: int) -> Result<Map<Seq<char>, usize>, Seq<char>>
    decreases ids.len() - k,
{
    if k < 0 || k >= ids.len() {
        Ok(names)
    } else if names.contains_key(ids[k]) {
        Err(duplicate_error(ids[k]))
    } else {
        add_names(names.insert(ids[k], index), ids, index, k + 1)
    }
}

/// The routing of the first `i` models, or the first failure among them.
pub open spec fn names_upto(infos: Seq<Result<ModelInfoV, Seq<char>>>, i: int) -> Result<Map<Seq<char>, usize>, Seq<char>>
    decreases i,
{
    if i <= 0 {
        Ok(Map::empty())
    } else {
        match names_upto(infos, i - 1) {
            Err(e) => Err(e),
            Ok(m) => match infos[i - 1] {
                Err(e) => Err(e),
                Ok(info) => add_names(m, idents(info), (i - 1) as usize, 0),
            },
        }
    }
}

/// The registry of models whose identities (or failures to read them) are `infos`, in order.
pub open spec fn load_spec(infos: Seq<Result<ModelInfoV, Seq<char>>>, default_name: Option<Seq<char>>) -> Result<RegistryV, Seq<char>> {
    if infos.len() == 0 {
        Err("at least one model is required"@)
    } else {
        match names_upto(infos, infos.len() as int) {
            Err(e) => Err(e),
            Ok(names) => {
                let models = Seq::new(infos.len(), |i: int| infos[i]->Ok_0);
                match default_name {
                    Some(n) => if names.contains_key(n) {
                        Ok(RegistryV { models, names, default: names[n] })
                    } else {
                        Err("unknown default model "@ + n)
                    },
                    None => Ok(RegistryV { models, names, default: 0 }),
                }
            },
        }
    }
}

/// `m2` is `names` with `ids[k..]` added for `index`.
pub open spec fn extended(names: Map<Seq<char>, usize>, m2: Map<Seq<char>, usize>, ids: Seq<Seq<char>>, index: usize, k: int) -> bool {
    &&& forall|key: Seq<char>| names.contains_key(key) ==> #[trigger] m2.contains_key(key) && m2[key] == names[key]
    &&& forall|j: int| k <= j < ids.len() ==> #[trigger] m2.contains_key(ids[j]) && m2[ids[j]] == index
    &&& forall|key: Seq<char>| #[trigger] m2.contains_key(key) ==> names.contains_key(key) || m2[key] == index
}

proof fn lemma_add_names(names: Map<Seq<char>, usize>, ids: Seq<Seq<char>>, index: usize, k: int)
    requires 0 <= k <= ids.len(),
    ensures add_names(names, ids, index, k) is Ok ==> extended(names, add_names(names, ids, index, k)->Ok_0, ids, index, k),
    decreases ids.len() - k,
{
    if k < ids.len() && !names.contains_key(ids[k]) {
        lemma_add_names(names.insert(ids[k], index), ids, index, k + 1);
    }
}

/// `m` routes every name of the first `i` models to its model, and nothing elsewhere.
pub open spec fn routed(m: Map<Seq<char>, usize>, infos: Seq<Result<ModelInfoV, Seq<char>>>, i: int) -> bool {
    &&& forall|a: int, k: int| 0 <= a < i && 0 <= k < idents(infos[a]->Ok_0).len()
        ==> #[trigger] m.contains_key(idents(infos[a]->Ok_0)[k]) && m[idents(infos[a]->Ok_0)[k]] == a
    &&& forall|key: Seq<char>| #[trigger] m.contains_key(key) ==> m[key] < i
    &&& forall|a: int| 0 <= a < i ==> #[trigger] infos[a] is Ok
}

proof fn lemma_routed_step(prev: Map<Seq<char>, usize>, m: Map<Seq<char>, usize>, infos: Seq<Result<ModelInfoV, Seq<char>>>, i: int)
    requires
        1 <= i <= infos.len() <= usize::MAX,
        routed(prev, infos, i - 1),
        infos[i - 1] is Ok,
        extended(prev, m, idents(infos[i - 1]->Ok_0), (i - 1) as usize, 0),
    ensures routed(m, infos, i),
{
    let ids = idents(infos[i - 1]->Ok_0);
    assert forall|a: int, k: int| 0 <= a < i && 0 <= k < idents(infos[a]->Ok_0).len()
        implies #[trigger] m.contains_key(idents(infos[a]->Ok_0)[k]) && m[idents(infos[a]->Ok_0)[k]] == a by {
        if a < i - 1 {
            assert(prev.contains_key(idents(infos[a]->Ok_0)[k]));
        } else {
            assert(m.contains_key(ids[k]));
        }
    }
    assert forall|key: Seq<char>| #[trigger] m.contains_key(key) implies m[key] < i by {
        if prev.contains_key(key) {
            assert(m[key] == prev[key]);
        }
    }
    assert forall|a: int| 0 <= a < i implies #[trigger] infos[a] is Ok by {
        if a < i - 1 {
            assert(infos[a] is Ok);
        }
    }
}

proof fn lemma_names_upto(infos: Seq<Result<ModelInfoV, Seq<char>>>, i: int)
    requires 0 <= i <= infos.len(), infos.len() <= usize::MAX,
    ensures names_upto(infos, i) is Ok ==> routed(names_upto(infos, i)->Ok_0, infos, i),
    decreases i,
{
    if i > 0 {
        lemma_names_upto(infos, i - 1);
        if names_upto(infos, i) is Ok {
            let prev = names_upto(infos, i - 1)->Ok_0;
            let info = infos[i - 1]->Ok_0;
            lemma_add_names(prev, idents(info), (i - 1) as usize, 0);
            lemma_routed_step(prev, names_upto(infos, i)->Ok_0, infos, i);
        }
    }
}

/// Every model answers to its canonical name and each of its aliases, every name routes to a
/// loaded model, and the default is a loaded model.
pub proof fn lemma_load_routes(infos: Seq<Result<ModelInfoV, Seq<char>>>, default_name: Option<Seq<char>>)
    requires infos.len() <= usize::MAX,
    ensures load_spec(infos, default_name) is Ok ==> routes(load_spec(infos, default_name)->Ok_0),
{
    if infos.len() > 0 {
        lemma_names_upto(infos, infos.len() as int);
        if load_spec(infos, default_name) is Ok {
            let r = load_spec(infos, default_name)->Ok_0;
            let m = names_upto(infos, infos.len() as int)->Ok_0;
            assert forall|a: int, k: int| 0 <= a < r.models.len() && 0 <= k < idents(r.models[a]).len()
                implies #[trigger] r.names.contains_key(idents(r.models[a])[k]) && r.names[idents(r.models[a])[k]] == a by {
                assert(r.models[a] == infos[a]->Ok_0);
                assert(m.contains_key(idents(infos[a]->Ok_0)[k]));
            }
            assert(routed(m, infos, infos.len() as int));
            assert(r.names == m);
            assert forall|key: Seq<char>| #[trigger] r.names.contains_key(key) implies r.names[key] < r.models.len() by {
                assert(m.contains_key(key));
            }
            assert(r.default < r.models.len());
            assert(routes(r));
        }
    }
}

/// Every model answers to its canonical name and each alias, every name routes to a loaded
/// model, and the default is loaded.
pub open spec fn routes(r: RegistryV) -> bool {
    &&& r.models.len() > 0 && r.default < r.models.len()
    &&& forall|a: int, k: int| 0 <= a < r.models.len() && 0 <= k < idents(r.models[a]).len()
        ==> #[trigger] r.names.contains_key(idents(r.models[a])[k]) && r.names[idents(r.models[a])[k]] == a
    &&& forall|key: Seq<char>| #[trigger] r.names.contains_key(key) ==> r.names[key] < r.models.len()
}

/// `m` is the model that outcome `o` read.
pub open spec fn loaded_as(m: ModelInfo, o: Result<ModelInfoV, Seq<char>>) -> bool {
    o is Ok && m@ == o->Ok_0
}

/// Once routing fails, it fails the same way for every longer prefix.
proof fn lemma_names_stuck(infos: Seq<Result<ModelInfoV, Seq<char>>>, i: int, j: int)
    requires 0 <= i <= j, names_upto(infos, i) is Err,
    ensures names_upto(infos, j) == names_upto(infos, i),
    decreases j - i,
{
    if j > i {
        lemma_names_stuck(infos, i, j - 1);
    }
}

/// The view of each identity outcome.
pub open spec fn outcomes(s: Seq<Result<ModelInfo, String>>) -> Seq<Result<ModelInfoV, Seq<char>>> {
    Seq::new(s.len(), |i: int| match s[i] { Ok(m) => Ok(m@), Err(e) => Err(e@) })
}

/// Routes `info`'s names to `index`.
fn add_names_exec(names: &mut StringHashMap<usize>, info: &ModelInfo, index: usize) -> (r: Result<(), String>)
    ensures
        match add_names(old(names)@, idents(info@), index, 0) {
            Ok(m) => r is Ok && final(names)@ == m,
            Err(e) => r matches Err(x) && x@ == e,
        },
{
    let ghost ids = idents(info@);
    if names.contains_key(info.name.as_str()) {
        let mut m = owned("duplicate model name or alias ");
        m.append(info.name.as_str());
        m.append("; load one checkpoint per model");
        return Err(m);
    }
    names.insert(info.name.clone(), index);
    let n = info.aliases.len();
    let mut k: usize = 0;
    while k < n
        invariant
            n == info@.aliases.len(),
            ids == idents(info@),
            ids.len() == n + 1,
            k <= n,
            add_names(old(names)@, ids, index, 0) == add_names(names@, ids, index, k + 1),
        decreases n - k,
    {
        let name: &str = info.aliases[k].as_str();
        assert(name@ == ids[k + 1]);
        if names.contains_key(name) {
            let mut m = owned("duplicate model name or alias ");
            m.append(name);
            m.append("; load one checkpoint per model");
            return Err(m);
        }
        names.insert(owned(name), index);
        k = k + 1;
    }
    Ok(())
}

impl Registry {
    /// Loaded and routable.
    pub closed spec fn wf(&self) -> bool {
        routes(self@)
    }

    /// The registry of the models whose identities are `infos` (in the order given; an entry is
    /// the failure to read a model where reading it failed), with the default named by
    /// `default_name`, else the first model. Names and aliases may not repeat.
    #[verifier::loop_isolation(false)]
    pub fn load(infos: Vec<Result<ModelInfo, String>>, default_name: Option<&str>) -> (r: Result<Registry, String>)
        requires infos@.len() <= usize::MAX,
        ensures
            match load_spec(outcomes(infos@), match default_name { Some(n) => Some(n@), None => None }) {
                Ok(v) => r matches Ok(x) && x@ == v && x.wf(),
                Err(e) => r matches Err(m) && m@ == e,
            },
    {
        let ghost ov = outcomes(infos@);
        let ghost dn = match default_name { Some(n) => Some(n@), None => None::<Seq<char>> };
        proof { lemma_load_routes(ov, dn); }
        if infos.len() == 0 {
            return Err(owned("at least one model is required"));
        }
        let mut names: StringHashMap<usize> = StringHashMap::new();
        let mut models: Vec<ModelInfo> = Vec::new();
        let mut infos = infos;
        let ghost all = infos@;
        let mut rest: Vec<Result<ModelInfo, String>> = Vec::new();
        while infos.len() > 0
            invariant
                rest@.len() + infos@.len() == all.len(),
                forall|i: int| 0 <= i < rest@.len() ==> #[trigger] rest@[i] == all[all.len() - 1 - i],
                infos@ == all.subrange(0, infos@.len() as int),
            decreases infos@.len(),
        {
            let x = infos.pop().unwrap();
            rest.push(x);
        }
        let mut i: usize = 0;
        let total = rest.len();
        while rest.len() > 0
            invariant
                total == all.len(),
                ov == outcomes(all),
                rest@.len() + i == total,
                forall|j: int| 0 <= j < rest@.len() ==> #[trigger] rest@[j] == all[total - 1 - j],
                names_upto(ov, i as int) == Ok::<Map<Seq<char>, usize>, Seq<char>>(names@),
                models@.len() == i,
                forall|j: int| 0 <= j < i ==> #[trigger] loaded_as(models@[j], ov[j]),
            decreases rest@.len(),
        {
            let x = rest.pop().unwrap();
            assert(x == all[i as int]);
            match x {
                Ok(info) => {
                    match add_names_exec(&mut names, &info, i) {
                        Ok(()) => {},
                        Err(e) => {
                            proof { lemma_names_stuck(ov, i + 1, total as int); }
                            return Err(e);
                        },
                    }
                    let ghost old_models = models@;
                    let ghost iv = info@;
                    models.push(info);
                    assert forall|j: int| 0 <= j < i + 1 implies #[trigger] loaded_as(models@[j], ov[j]) by {
                        if j < i {
                            assert(models@[j] == old_models[j]);
                            assert(loaded_as(old_models[j], ov[j]));
                        } else {
                            assert(models@[j]@ == iv);
                        }
                    }
                },
                Err(e) => {
                    proof { lemma_names_stuck(ov, i + 1, total as int); }
                    return Err(e);
                },
            }
            i = i + 1;
        }
        let default = match default_name {
            Some(n) => match names.get(n) {
                Some(d) => *d,
                None => {
                    let mut m = owned("unknown default model ");
                    m.append(n);
                    return Err(m);
                },
            },
            None => 0,
        };
        let r = Registry { models, names, default };
        assert forall|j: int| 0 <= j < r@.models.len() implies r@.models[j] == load_spec(ov, dn)->Ok_0.models[j] by {
            assert(loaded_as(r.models@[j], ov[j]));
        }
        assert(r@.models =~= load_spec(ov, dn)->Ok_0.models);
        Ok(r)
    }
}

/// Which model a request routes to: its `model` name or alias, else the default.
pub open spec fn select_spec(r: RegistryV, req: JV) -> Result<usize, Seq<char>> {
    if !(req is Obj) {
        Err("request body must be a JSON object"@)
    } else {
        match req.get("model"@) {
            JV::Null => Ok(r.default),
            JV::Str(name) => if r.names.contains_key(name) {
                Ok(r.names[name])
            } else {
                Err("unknown model "@ + name + "; see /v1/models"@)
            },
            _ => Err("model must be a string naming a loaded model"@),
        }
    }
}

/// One `/v1/models` entry: a name of model `m`.
pub open spec fn entry(r: RegistryV, m: ModelInfoV, name: Seq<char>) -> JV {
    JV::Obj(seq![
        ("name"@, JV::Str(name)),
        ("canonical_name"@, JV::Str(m.name)),
        ("architecture"@, JV::Str(m.architecture)),
        ("family"@, JV::Str(m.family)),
        ("default"@, JV::Bool(m.name == r.models[r.default as int].name)),
        ("description"@, JV::Str("Locally loaded "@ + m.name + " decision model on Goish Rust"@)),
        ("release_date"@, JV::Str(m.release_date)),
    ])
}

/// The entries for the first `k` names of model `m`.
pub open spec fn model_entries(r: RegistryV, m: ModelInfoV, k: int) -> Seq<JV> {
    Seq::new(k as nat, |q: int| entry(r, m, idents(m)[q]))
}

/// The entries of the first `i` models, each model's names in order.
pub open spec fn entries_upto(r: RegistryV, i: int) -> Seq<JV>
    decreases i,
{
    if i <= 0 {
        Seq::empty()
    } else {
        let m = r.models[i - 1];
        entries_upto(r, i - 1) + model_entries(r, m, idents(m).len() as int)
    }
}

/// The canonical names as JSON strings.
pub open spec fn canonical_names(r: RegistryV) -> Seq<JV> {
    Seq::new(r.models.len(), |i: int| JV::Str(r.models[i].name))
}

/// The `/v1/models` listing.
pub open spec fn listing_spec(r: RegistryV) -> JV {
    JV::Obj(seq![
        ("models"@, JV::Arr(entries_upto(r, r.models.len() as int))),
        ("default_model"@, JV::Str(r.models[r.default as int].name)),
    ])
}

impl Registry {
    /// The model a request routes to (its index among the loaded models).
    pub fn select(&self, req: &J) -> (r: Result<usize, String>)
        requires self.wf(),
        ensures
            match select_spec(self@, req@) {
                Ok(i) => r == Ok::<usize, String>(i) && i < self@.models.len(),
                Err(e) => r matches Err(m) && m@ == e,
            },
    {
        match req {
            J::Obj(_) => {},
            _ => {
                return Err(owned("request body must be a JSON object"));
            },
        }
        match req.get("model") {
            J::Null => Ok(self.default),
            J::Str(name) => match self.names.get(name.as_str()) {
                Some(i) => Ok(*i),
                None => {
                    let mut m = owned("unknown model ");
                    m.append(name.as_str());
                    m.append("; see /v1/models");
                    Err(m)
                },
            },
            _ => Err(owned("model must be a string naming a loaded model")),
        }
    }

    /// The index of the default model.
    pub fn default_model(&self) -> (r: usize)
        requires self.wf(),
        ensures r == self@.default && r < self@.models.len(),
    {
        self.default
    }

    /// How many models are loaded.
    pub fn len(&self) -> (r: usize)
        ensures r == self@.models.len(),
    {
        self.models.len()
    }

    /// The identity of loaded model `i`.
    pub fn info(&self, i: usize) -> (r: &ModelInfo)
        requires i < self@.models.len(),
        ensures r@ == self@.models[i as int],
    {
        &self.models[i]
    }

    /// The canonical names of the loaded models, in load order.
    pub fn loaded_names(&self) -> (r: J)
        ensures r@ == JV::Arr(canonical_names(self@)),
    {
        let mut v: Vec<J> = Vec::new();
        let mut i: usize = 0;
        while i < self.models.len()
            invariant
                i <= self.models@.len(),
                v@.len() == i,
                forall|j: int| 0 <= j < i ==> #[trigger] v@[j]@ == JV::Str(self.models@[j].name@),
            decreases self.models@.len() - i,
        {
            v.push(J::s(self.models[i].name.as_str()));
            i = i + 1;
        }
        proof {
            crate::json::lemma_jv_items(v@);
            assert forall|j: int| 0 <= j < v@.len() implies crate::json::jv_items(v@)[j] == canonical_names(self@)[j] by {
                assert(v@[j]@ == JV::Str(self.models@[j].name@));
                assert(self@.models[j] == self.models@[j]@);
            }
        }
        assert(crate::json::jv_items(v@) =~= canonical_names(self@));
        J::Arr(v)
    }

    /// The listing entry for `name` of model `m`.
    fn entry_of(&self, m: &ModelInfo, name: &str, dname: &str) -> (e: J)
        requires
            self.wf(),
            dname@ == self@.models[self@.default as int].name,
        ensures e@ == entry(self@, m@, name@),
    {
        let mut desc = owned("Locally loaded ");
        desc.append(m.name.as_str());
        desc.append(" decision model on Goish Rust");
        let e = J::object(vec![
            ("name", J::s(name)),
            ("canonical_name", J::s(m.name.as_str())),
            ("architecture", J::s(m.architecture.as_str())),
            ("family", J::s(m.family.as_str())),
            ("default", J::Bool(str_eq(m.name.as_str(), dname))),
            ("description", J::Str(desc)),
            ("release_date", J::s(m.release_date)),
        ]);
        assert(e@->Obj_0 =~= entry(self@, m@, name@)->Obj_0);
        e
    }

    /// The `/v1/models` listing: an entry per name and alias, and the default model.
    pub fn listing(&self) -> (r: J)
        requires self.wf(),
        ensures r@ == listing_spec(self@),
    {
        let ghost rv = self@;
        let dname = self.models[self.default].name.as_str();
        let mut entries: Vec<J> = Vec::new();
        let mut i: usize = 0;
        while i < self.models.len()
            invariant
                self.wf(),
                rv == self@,
                dname@ == rv.models[rv.default as int].name,
                i <= self.models@.len(),
                crate::json::jv_items(entries@) == entries_upto(rv, i as int),
            decreases self.models@.len() - i,
        {
            let m = &self.models[i];
            assert(rv.models[i as int] == m@);
            let ghost before = crate::json::jv_items(entries@);
            let e0 = self.entry_of(m, m.name.as_str(), dname);
            let ghost o0 = entries@;
            entries.push(e0);
            proof {
                crate::json::lemma_jv_items(o0);
                crate::json::lemma_jv_items(entries@);
                assert(crate::json::jv_items(entries@) =~= before + model_entries(rv, m@, 1));
            }
            let n = m.aliases.len();
            let mut k: usize = 0;
            while k < n
                invariant
                    self.wf(),
                    rv == self@,
                    m@ == rv.models[i as int],
                    dname@ == rv.models[rv.default as int].name,
                    n == m@.aliases.len(),
                    k <= n,
                    crate::json::jv_items(entries@) == before + model_entries(rv, m@, k + 1),
                decreases n - k,
            {
                assert(m.aliases@[k as int]@ == idents(m@)[k + 1]);
                let e = self.entry_of(m, m.aliases[k].as_str(), dname);
                let ghost old_e = entries@;
                entries.push(e);
                proof {
                    crate::json::lemma_jv_items(old_e);
                    crate::json::lemma_jv_items(entries@);
                    assert(crate::json::jv_items(entries@) =~= crate::json::jv_items(old_e).push(e@));
                    assert(before + model_entries(rv, m@, k + 2) =~= (before + model_entries(rv, m@, k + 1)).push(e@));
                }
                k = k + 1;
            }
            assert(model_entries(rv, m@, n + 1) =~= model_entries(rv, m@, idents(m@).len() as int));
            i = i + 1;
        }
        proof { crate::json::lemma_jv_items(entries@); }
        let r = J::object(vec![("models", J::Arr(entries)), ("default_model", J::s(dname))]);
        assert(r@->Obj_0 =~= listing_spec(rv)->Obj_0);
        r
    }
}

} // verus!
