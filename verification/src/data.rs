//! The inventory records: systems, volumes and hosts, and the
//! read-only collection that serves them.
//!
//! Each record converts to a structured value by a fixed field
//! enumeration in declaration order — that order becomes the default
//! CSV column order. The collection is assembled once from keyed
//! entries, the key becoming each record's `id`, and only ever read
//! after that.

use vstd::prelude::*;

use crate::value::{Entry, StructuredValue, ValModel, model, models_of, lemma_models_of,
    entry_models_of, lemma_entry_models_of};

verus! {

/// A system: a deployed service, possibly reachable over HTTP, run on
/// some hosts.
#[verifier::ext_equal]
pub struct System {
    pub id: Option<String>,
    pub domain: Option<String>,
    pub http_port: Option<u16>,
    pub hosts: Vec<String>,
}

/// The model of a system: its fields over character sequences.
#[verifier::ext_equal]
pub struct SystemModel {
    pub id: Option<Seq<char>>,
    pub domain: Option<Seq<char>>,
    pub http_port: Option<u16>,
    pub hosts: Seq<Seq<char>>,
}

impl View for System {
    type V = SystemModel;

    open spec fn view(&self) -> SystemModel {
        SystemModel {
            id: match self.id {
                None => None,
                Some(s) => Some(s@),
            },
            domain: match self.domain {
                None => None,
                Some(s) => Some(s@),
            },
            http_port: self.http_port,
            hosts: self.hosts@.map_values(|h: String| h@),
        }
    }
}

/// Models of a sequence of systems.
pub open spec fn system_views(s: Seq<System>) -> Seq<SystemModel> {
    s.map_values(|x: System| x@)
}

/// A volume: a piece of stored data and what recreating it would
/// take.
#[verifier::ext_equal]
pub struct Volume {
    pub id: Option<String>,
    pub description: Option<String>,
    pub recreate_effort: Option<String>,
    pub skip_backup: bool,
}

/// A host: a machine systems run on.
#[verifier::ext_equal]
pub struct Host {
    pub id: Option<String>,
    pub domain: Option<String>,
}

/// The in-memory inventory, assembled once and then only read.
pub struct Data {
    systems: Vec<System>,
    volumes: Vec<Volume>,
    hosts: Vec<Host>,
}

/// An optional string as a structured value: the string, or null.
pub open spec fn opt_text_model(o: Option<String>) -> ValModel {
    match o {
        None => ValModel::Null,
        Some(s) => ValModel::Text(s@),
    }
}

/// An optional port as a structured value: the number, or null.
pub open spec fn opt_port_model(o: Option<u16>) -> ValModel {
    match o {
        None => ValModel::Null,
        Some(p) => ValModel::Number(p as int),
    }
}

/// The structured value of a system: `id`, `domain`, `http_port`,
/// `hosts`, in that order.
pub open spec fn system_model(s: System) -> ValModel {
    ValModel::Object(
        seq![
            ("id"@, opt_text_model(s.id)),
            ("domain"@, opt_text_model(s.domain)),
            ("http_port"@, opt_port_model(s.http_port)),
            ("hosts"@, ValModel::Array(s.hosts@.map_values(|h: String| ValModel::Text(h@)))),
        ],
    )
}

/// The structured value of a volume: `id`, `description`,
/// `recreate_effort`, `skip_backup`, in that order.
pub open spec fn volume_model(v: Volume) -> ValModel {
    ValModel::Object(
        seq![
            ("id"@, opt_text_model(v.id)),
            ("description"@, opt_text_model(v.description)),
            ("recreate_effort"@, opt_text_model(v.recreate_effort)),
            ("skip_backup"@, ValModel::Bool(v.skip_backup)),
        ],
    )
}

/// The structured value of a host: `id`, `domain`, in that order.
pub open spec fn host_model(h: Host) -> ValModel {
    ValModel::Object(seq![("id"@, opt_text_model(h.id)), ("domain"@, opt_text_model(h.domain))],
    )
}

/// An optional string, cloned.
fn clone_opt_string(o: &Option<String>) -> (r: Option<String>)
    ensures
        r == *o,
{
    match o {
        None => None,
        Some(s) => Some(s.clone()),
    }
}

/// A string vector, cloned: the same strings in the same order.
fn clone_strings(v: &Vec<String>) -> (r: Vec<String>)
    ensures
        r@ == v@,
{
    let n = v.len();
    let mut r: Vec<String> = Vec::new();
    let mut i: usize = 0;
    while i < n
        invariant
            i <= n == v@.len(),
            r@ == v@.subrange(0, i as int),
        decreases n - i,
    {
        r.push(v[i].clone());
        assert(r@ =~= v@.subrange(0, i + 1 as int));
        i = i + 1;
    }
    proof {
        assert(r@ =~= v@);
    }
    r
}

/// An optional string as a structured value.
fn opt_text_value(o: &Option<String>) -> (r: StructuredValue)
    ensures
        model(r) == opt_text_model(*o),
{
    match o {
        None => StructuredValue::Null,
        Some(s) => StructuredValue::Text(s.clone()),
    }
}

impl System {
    /// This system, cloned: the same record, seen through its model.
    pub fn duplicate(&self) -> (r: System)
        ensures
            r@ == self@,
            r.id == self.id,
            r.domain == self.domain,
            r.http_port == self.http_port,
            r.hosts@ == self.hosts@,
    {
        let r = System {
            id: clone_opt_string(&self.id),
            domain: clone_opt_string(&self.domain),
            http_port: self.http_port,
            hosts: clone_strings(&self.hosts),
        };
        proof {
            assert(r@ =~= self@);
        }
        r
    }

    /// This system as a structured value, fields in declaration
    /// order.
    pub fn to_value(&self) -> (r: StructuredValue)
        ensures
            model(r) == system_model(*self),
    {
        let mut host_values: Vec<StructuredValue> = Vec::new();
        let n = self.hosts.len();
        let mut i: usize = 0;
        while i < n
            invariant
                i <= n == self.hosts@.len(),
                models_of(host_values@).len() == i,
                forall|k: int| 0 <= k < i ==> models_of(host_values@)[k] == ValModel::Text(
                    (#[trigger] self.hosts@[k])@,
                ),
            decreases n - i,
        {
            let ghost old_values = host_values@;
            host_values.push(StructuredValue::Text(self.hosts[i].clone()));
            proof {
                lemma_models_of(old_values);
                lemma_models_of(host_values@);
                assert(host_values@.subrange(0, old_values.len() as int) =~= old_values);
                assert forall|k: int| 0 <= k < i + 1 implies models_of(host_values@)[k]
                    == ValModel::Text((#[trigger] self.hosts@[k])@) by {
                    assert(models_of(host_values@)[k] == model(host_values@[k]));
                    if k < i {
                        assert(host_values@[k] == old_values[k]);
                        assert(models_of(old_values)[k] == model(old_values[k]));
                    }
                }
            }
            i = i + 1;
        }
        proof {
            lemma_models_of(host_values@);
            assert(models_of(host_values@) =~= self.hosts@.map_values(
                |h: String| ValModel::Text(h@),
            ));
        }
        let mut entries: Vec<Entry> = Vec::new();
        entries.push(Entry { key: "id".to_owned(), value: opt_text_value(&self.id) });
        entries.push(Entry { key: "domain".to_owned(), value: opt_text_value(&self.domain) });
        entries.push(
            Entry {
                key: "http_port".to_owned(),
                value: match self.http_port {
                    None => StructuredValue::Null,
                    Some(p) => StructuredValue::Number(p as i64),
                },
            },
        );
        entries.push(Entry { key: "hosts".to_owned(), value: StructuredValue::Array(host_values) });
        let r = StructuredValue::Object(entries);
        proof {
            lemma_entry_models_of(r->Object_0@);
            assert(entry_models_of(r->Object_0@) =~~= system_model(*self)->Object_0);
            assert(model(r) =~~= system_model(*self));
        }
        r
    }
}

impl Volume {
    /// This volume, cloned.
    pub fn duplicate(&self) -> (r: Volume)
        ensures
            r == *self,
    {
        let r = Volume {
            id: clone_opt_string(&self.id),
            description: clone_opt_string(&self.description),
            recreate_effort: clone_opt_string(&self.recreate_effort),
            skip_backup: self.skip_backup,
        };
        proof {
            assert(r =~= *self);
        }
        r
    }

    /// This volume as a structured value, fields in declaration
    /// order.
    pub fn to_value(&self) -> (r: StructuredValue)
        ensures
            model(r) == volume_model(*self),
    {
        let mut entries: Vec<Entry> = Vec::new();
        entries.push(Entry { key: "id".to_owned(), value: opt_text_value(&self.id) });
        entries.push(
            Entry { key: "description".to_owned(), value: opt_text_value(&self.description) },
        );
        entries.push(
            Entry {
                key: "recreate_effort".to_owned(),
                value: opt_text_value(&self.recreate_effort),
            },
        );
        entries.push(
            Entry { key: "skip_backup".to_owned(), value: StructuredValue::Bool(self.skip_backup) },
        );
        let r = StructuredValue::Object(entries);
        proof {
            lemma_entry_models_of(r->Object_0@);
            assert(entry_models_of(r->Object_0@) =~~= volume_model(*self)->Object_0);
            assert(model(r) =~~= volume_model(*self));
        }
        r
    }
}

impl Host {
    /// This host, cloned.
    pub fn duplicate(&self) -> (r: Host)
        ensures
            r == *self,
    {
        let r = Host { id: clone_opt_string(&self.id), domain: clone_opt_string(&self.domain) };
        proof {
            assert(r =~= *self);
        }
        r
    }

    /// This host as a structured value, fields in declaration order.
    pub fn to_value(&self) -> (r: StructuredValue)
        ensures
            model(r) == host_model(*self),
    {
        let mut entries: Vec<Entry> = Vec::new();
        entries.push(Entry { key: "id".to_owned(), value: opt_text_value(&self.id) });
        entries.push(Entry { key: "domain".to_owned(), value: opt_text_value(&self.domain) });
        let r = StructuredValue::Object(entries);
        proof {
            lemma_entry_models_of(r->Object_0@);
            assert(entry_models_of(r->Object_0@) =~~= host_model(*self)->Object_0);
            assert(model(r) =~~= host_model(*self));
        }
        r
    }
}

/// The systems as structured values, in order.
pub fn values_of_systems(v: &Vec<System>) -> (r: Vec<StructuredValue>)
    ensures
        models_of(r@) == v@.map_values(|s: System| system_model(s)),
{
    let n = v.len();
    let mut r: Vec<StructuredValue> = Vec::new();
    let mut i: usize = 0;
    while i < n
        invariant
            i <= n == v@.len(),
            models_of(r@).len() == i,
            forall|k: int| 0 <= k < i ==> models_of(r@)[k] == system_model(#[trigger] v@[k]),
        decreases n - i,
    {
        let ghost old_r = r@;
        r.push(v[i].to_value());
        proof {
            lemma_models_of(old_r);
            lemma_models_of(r@);
            assert(r@.subrange(0, old_r.len() as int) =~= old_r);
            assert forall|k: int| 0 <= k < i + 1 implies models_of(r@)[k] == system_model(
                #[trigger] v@[k],
            ) by {
                assert(models_of(r@)[k] == model(r@[k]));
                if k < i {
                    assert(r@[k] == old_r[k]);
                    assert(models_of(old_r)[k] == model(old_r[k]));
                }
            }
        }
        i = i + 1;
    }
    proof {
        lemma_models_of(r@);
        assert(models_of(r@) =~= v@.map_values(|s: System| system_model(s)));
    }
    r
}

/// The volumes as structured values, in order.
pub fn values_of_volumes(v: &Vec<Volume>) -> (r: Vec<StructuredValue>)
    ensures
        models_of(r@) == v@.map_values(|s: Volume| volume_model(s)),
{
    let n = v.len();
    let mut r: Vec<StructuredValue> = Vec::new();
    let mut i: usize = 0;
    while i < n
        invariant
            i <= n == v@.len(),
            models_of(r@).len() == i,
            forall|k: int| 0 <= k < i ==> models_of(r@)[k] == volume_model(#[trigger] v@[k]),
        decreases n - i,
    {
        let ghost old_r = r@;
        r.push(v[i].to_value());
        proof {
            lemma_models_of(old_r);
            lemma_models_of(r@);
            assert(r@.subrange(0, old_r.len() as int) =~= old_r);
            assert forall|k: int| 0 <= k < i + 1 implies models_of(r@)[k] == volume_model(
                #[trigger] v@[k],
            ) by {
                assert(models_of(r@)[k] == model(r@[k]));
                if k < i {
                    assert(r@[k] == old_r[k]);
                    assert(models_of(old_r)[k] == model(old_r[k]));
                }
            }
        }
        i = i + 1;
    }
    proof {
        lemma_models_of(r@);
        assert(models_of(r@) =~= v@.map_values(|s: Volume| volume_model(s)));
    }
    r
}

/// The hosts as structured values, in order.
pub fn values_of_hosts(v: &Vec<Host>) -> (r: Vec<StructuredValue>)
    ensures
        models_of(r@) == v@.map_values(|s: Host| host_model(s)),
{
    let n = v.len();
    let mut r: Vec<StructuredValue> = Vec::new();
    let mut i: usize = 0;
    while i < n
        invariant
            i <= n == v@.len(),
            models_of(r@).len() == i,
            forall|k: int| 0 <= k < i ==> models_of(r@)[k] == host_model(#[trigger] v@[k]),
        decreases n - i,
    {
        let ghost old_r = r@;
        r.push(v[i].to_value());
        proof {
            lemma_models_of(old_r);
            lemma_models_of(r@);
            assert(r@.subrange(0, old_r.len() as int) =~= old_r);
            assert forall|k: int| 0 <= k < i + 1 implies models_of(r@)[k] == host_model(
                #[trigger] v@[k],
            ) by {
                assert(models_of(r@)[k] == model(r@[k]));
                if k < i {
                    assert(r@[k] == old_r[k]);
                    assert(models_of(old_r)[k] == model(old_r[k]));
                }
            }
        }
        i = i + 1;
    }
    proof {
        lemma_models_of(r@);
        assert(models_of(r@) =~= v@.map_values(|s: Host| host_model(s)));
    }
    r
}

/// Systems kept by a row of decisions: the subsequence under `true`.
pub open spec fn filter_by(s: Seq<System>, kept: Seq<bool>) -> Seq<System>
    decreases s.len(),
{
    if s.len() == 0 || kept.len() < s.len() {
        Seq::empty()
    } else {
        filter_by(s.subrange(0, s.len() - 1), kept.subrange(0, s.len() - 1)) + (if kept[s.len()
            - 1] {
            seq![s[s.len() - 1]]
        } else {
            Seq::empty()
        })
    }
}

impl Data {
    /// The inventory assembled from keyed entries: each entry's key
    /// becomes its record's `id`, everything else is kept as given.
    pub fn from_entries(
        systems: Vec<(String, System)>,
        volumes: Vec<(String, Volume)>,
        hosts: Vec<(String, Host)>,
    ) -> (d: Data)
        ensures
            d.spec_systems().len() == systems@.len(),
            forall|i: int| 0 <= i < systems@.len() ==> d.spec_systems()[i] == (System {
                id: Some((#[trigger] systems@[i]).0),
                ..systems@[i].1
            }),
            d.spec_volumes().len() == volumes@.len(),
            forall|i: int| 0 <= i < volumes@.len() ==> d.spec_volumes()[i] == (Volume {
                id: Some((#[trigger] volumes@[i]).0),
                ..volumes@[i].1
            }),
            d.spec_hosts().len() == hosts@.len(),
            forall|i: int| 0 <= i < hosts@.len() ==> d.spec_hosts()[i] == (Host {
                id: Some((#[trigger] hosts@[i]).0),
                ..hosts@[i].1
            }),
    {
        let mut out_systems: Vec<System> = Vec::new();
        let mut sv = systems;
        let ghost sv0 = sv@;
        let ns = sv.len();
        let mut i: usize = 0;
        while i < ns
            invariant
                i <= ns,
                sv@ == sv0.subrange(i as int, ns as int),
                ns == sv0.len(),
                out_systems@.len() == i,
                forall|k: int| 0 <= k < i ==> out_systems@[k] == (System {
                    id: Some((#[trigger] sv0[k]).0),
                    ..sv0[k].1
                }),
            decreases ns - i,
        {
            let (key, mut s) = sv.remove(0);
            s.id = Some(key);
            out_systems.push(s);
            proof {
                assert(sv@ =~= sv0.subrange(i + 1 as int, ns as int));
            }
            i = i + 1;
        }
        let mut out_volumes: Vec<Volume> = Vec::new();
        let mut vv = volumes;
        let ghost vv0 = vv@;
        let nv = vv.len();
        let mut j: usize = 0;
        while j < nv
            invariant
                j <= nv,
                vv@ == vv0.subrange(j as int, nv as int),
                nv == vv0.len(),
                out_volumes@.len() == j,
                forall|k: int| 0 <= k < j ==> out_volumes@[k] == (Volume {
                    id: Some((#[trigger] vv0[k]).0),
                    ..vv0[k].1
                }),
            decreases nv - j,
        {
            let (key, mut v) = vv.remove(0);
            v.id = Some(key);
            out_volumes.push(v);
            proof {
                assert(vv@ =~= vv0.subrange(j + 1 as int, nv as int));
            }
            j = j + 1;
        }
        let mut out_hosts: Vec<Host> = Vec::new();
        let mut hv = hosts;
        let ghost hv0 = hv@;
        let nh = hv.len();
        let mut k: usize = 0;
        while k < nh
            invariant
                k <= nh,
                hv@ == hv0.subrange(k as int, nh as int),
                nh == hv0.len(),
                out_hosts@.len() == k,
                forall|m: int| 0 <= m < k ==> out_hosts@[m] == (Host {
                    id: Some((#[trigger] hv0[m]).0),
                    ..hv0[m].1
                }),
            decreases nh - k,
        {
            let (key, mut h) = hv.remove(0);
            h.id = Some(key);
            out_hosts.push(h);
            proof {
                assert(hv@ =~= hv0.subrange(k + 1 as int, nh as int));
            }
            k = k + 1;
        }
        Data { systems: out_systems, volumes: out_volumes, hosts: out_hosts }
    }

    /// The systems held, as the contracts see them.
    pub closed spec fn spec_systems(&self) -> Seq<System> {
        self.systems@
    }

    /// The volumes held, as the contracts see them.
    pub closed spec fn spec_volumes(&self) -> Seq<Volume> {
        self.volumes@
    }

    /// The hosts held, as the contracts see them.
    pub closed spec fn spec_hosts(&self) -> Seq<Host> {
        self.hosts@
    }

    /// How many systems are held.
    pub fn system_count(&self) -> (r: usize)
        ensures
            r == self.spec_systems().len(),
    {
        self.systems.len()
    }

    /// How many volumes are held.
    pub fn volume_count(&self) -> (r: usize)
        ensures
            r == self.spec_volumes().len(),
    {
        self.volumes.len()
    }

    /// How many hosts are held.
    pub fn host_count(&self) -> (r: usize)
        ensures
            r == self.spec_hosts().len(),
    {
        self.hosts.len()
    }

    /// All systems, in order, seen through their models.
    pub fn get_systems(&self) -> (r: Vec<System>)
        ensures
            system_views(r@) == system_views(self.spec_systems()),
    {
        let n = self.systems.len();
        let mut r: Vec<System> = Vec::new();
        let mut i: usize = 0;
        while i < n
            invariant
                i <= n == self.systems@.len(),
                r@.len() == i,
                forall|k: int| 0 <= k < i ==> (#[trigger] r@[k])@ == self.systems@[k]@,
            decreases n - i,
        {
            r.push(self.systems[i].duplicate());
            i = i + 1;
        }
        proof {
            assert(system_views(r@) =~= system_views(self.systems@));
        }
        r
    }

    /// The systems the predicate keeps, in order: the result is the
    /// subsequence selected by one possible answer of the predicate
    /// for each system, seen through the records' models.
    pub fn get_systems_filtered<P: Fn(&System) -> bool>(&self, predicate: P) -> (r: Vec<System>)
        requires
            forall|i: int|
                0 <= i < self.spec_systems().len() ==> call_requires(
                    predicate,
                    (&self.spec_systems()[i],),
                ),
        ensures
            exists|kept: Seq<bool>|
                {
                    &&& kept.len() == self.spec_systems().len()
                    &&& (forall|j: int|
                        0 <= j < kept.len() ==> call_ensures(
                            predicate,
                            (&self.spec_systems()[j],),
                            #[trigger] kept[j],
                        ))
                    &&& system_views(r@) == system_views(filter_by(self.spec_systems(), kept))
                },
    {
        let n = self.systems.len();
        let mut r: Vec<System> = Vec::new();
        let ghost mut kept: Seq<bool> = Seq::empty();
        let mut i: usize = 0;
        proof {
            assert forall|k: int| 0 <= k < n implies call_requires(
                predicate,
                (&self.systems@[k],),
            ) by {
                assert(self.spec_systems()[k] == self.systems@[k]);
            }
            assert(filter_by(self.systems@.subrange(0, 0), kept) =~= Seq::<System>::empty());
            assert(system_views(r@) =~= system_views(
                filter_by(self.systems@.subrange(0, 0), kept),
            ));
        }
        while i < n
            invariant
                i <= n == self.systems@.len(),
                forall|k: int| 0 <= k < n ==> call_requires(predicate, (&self.systems@[k],)),
                kept.len() == i,
                forall|j: int|
                    0 <= j < i ==> call_ensures(
                        predicate,
                        (&self.systems@[j],),
                        #[trigger] kept[j],
                    ),
                system_views(r@) == system_views(
                    filter_by(self.systems@.subrange(0, i as int), kept),
                ),
            decreases n - i,
        {
            let ghost kept0 = kept;
            let ghost old_r = r@;
            let keep = predicate(&self.systems[i]);
            proof {
                kept = kept.push(keep);
            }
            if keep {
                r.push(self.systems[i].duplicate());
            }
            proof {
                let pre_s = self.systems@.subrange(0, i as int);
                let post_s = self.systems@.subrange(0, i + 1 as int);
                assert(post_s.subrange(0, post_s.len() - 1) =~= pre_s);
                assert(kept.subrange(0, kept.len() - 1) =~= kept0);
                assert(post_s[post_s.len() - 1] == self.systems@[i as int]);
                assert(filter_by(post_s, kept) == filter_by(pre_s, kept0) + (if keep {
                    seq![self.systems@[i as int]]
                } else {
                    Seq::<System>::empty()
                }));
                if keep {
                    let f = filter_by(pre_s, kept0);
                    let g = filter_by(post_s, kept);
                    assert(g == f + seq![self.systems@[i as int]]);
                    assert(system_views(old_r).len() == system_views(f).len());
                    assert(r@.len() == old_r.len() + 1);
                    assert forall|k: int| 0 <= k < r@.len() implies system_views(r@)[k]
                        == system_views(g)[k] by {
                        assert(system_views(r@)[k] == r@[k]@);
                        assert(system_views(g)[k] == g[k]@);
                        if k < r@.len() - 1 {
                            assert(r@[k] == old_r[k]);
                            assert(system_views(old_r)[k] == old_r[k]@);
                            assert(system_views(f)[k] == f[k]@);
                            assert(g[k] == f[k]);
                        } else {
                            assert(r@[k]@ == self.systems@[i as int]@);
                            assert(g[k] == self.systems@[i as int]);
                        }
                    }
                    assert(system_views(r@) =~= system_views(filter_by(post_s, kept)));
                } else {
                    assert(filter_by(pre_s, kept0) + Seq::<System>::empty() =~= filter_by(
                        pre_s,
                        kept0,
                    ));
                    assert(system_views(r@) =~= system_views(filter_by(post_s, kept)));
                }
            }
            i = i + 1;
        }
        proof {
            assert(self.systems@.subrange(0, n as int) =~= self.systems@);
            assert forall|j: int| 0 <= j < kept.len() implies call_ensures(
                predicate,
                (&self.spec_systems()[j],),
                #[trigger] kept[j],
            ) by {
                assert(self.spec_systems()[j] == self.systems@[j]);
            }
            assert({
                &&& kept.len() == self.spec_systems().len()
                &&& (forall|j: int|
                    0 <= j < kept.len() ==> call_ensures(
                        predicate,
                        (&self.spec_systems()[j],),
                        #[trigger] kept[j],
                    ))
                &&& system_views(r@) == system_views(filter_by(self.spec_systems(), kept))
            });
        }
        r
    }

    /// All volumes, in order.
    pub fn get_volumes(&self) -> (r: Vec<Volume>)
        ensures
            r@ == self.spec_volumes(),
    {
        let n = self.volumes.len();
        let mut r: Vec<Volume> = Vec::new();
        let mut i: usize = 0;
        while i < n
            invariant
                i <= n == self.volumes@.len(),
                r@ == self.volumes@.subrange(0, i as int),
            decreases n - i,
        {
            r.push(self.volumes[i].duplicate());
            assert(r@ =~= self.volumes@.subrange(0, i + 1 as int));
            i = i + 1;
        }
        proof {
            assert(r@ =~= self.volumes@);
        }
        r
    }

    /// All hosts, in order.
    pub fn get_hosts(&self) -> (r: Vec<Host>)
        ensures
            r@ == self.spec_hosts(),
    {
        let n = self.hosts.len();
        let mut r: Vec<Host> = Vec::new();
        let mut i: usize = 0;
        while i < n
            invariant
                i <= n == self.hosts@.len(),
                r@ == self.hosts@.subrange(0, i as int),
            decreases n - i,
        {
            r.push(self.hosts[i].duplicate());
            assert(r@ =~= self.hosts@.subrange(0, i + 1 as int));
            i = i + 1;
        }
        proof {
            assert(r@ =~= self.hosts@);
        }
        r
    }
}

} // verus!
