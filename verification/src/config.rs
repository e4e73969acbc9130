//! The orchestration plan: subflakes, their platform support and ordered
//! steps, the projection out of a configuration document, and the sorted
//! iteration order that makes runs deterministic.

use vstd::multiset::Multiset;
use vstd::prelude::*;

use crate::bytes::{
    bytes_eq, bytes_lt, lemma_lex_lt_total, lemma_lex_lt_transitive, lex_le, lex_lt,
};
use crate::error::{CiError, CiErrorView};

verus! {

broadcast use vstd::seq_lib::group_to_multiset_ensures;

/// One opaque, named unit of build/check work within a subflake. The engine
/// only needs the name; what the step actually runs is the caller's concern.
pub struct Step {
    pub name: Vec<u8>,
}

impl View for Step {
    type V = Seq<u8>;

    open spec fn view(&self) -> Seq<u8> {
        self.name@
    }
}

impl DeepView for Step {
    type V = Seq<u8>;

    open spec fn deep_view(&self) -> Seq<u8> {
        self.name@
    }
}

/// One independently buildable sub-unit of the project.
pub struct Subflake {
    /// Source directory of the subflake, relative to the project root.
    pub dir: Vec<u8>,
    /// The platforms this subflake supports; `None` declares support for
    /// every platform.
    pub systems: Option<Vec<Vec<u8>>>,
    /// The ordered steps that build and check this subflake.
    pub steps: Vec<Step>,
}

/// Mathematical image of a `Subflake`.
pub struct SubflakeView {
    pub dir: Seq<u8>,
    pub systems: Option<Seq<Seq<u8>>>,
    pub steps: Seq<Seq<u8>>,
}

impl View for Subflake {
    type V = SubflakeView;

    open spec fn view(&self) -> SubflakeView {
        SubflakeView {
            dir: self.dir@,
            systems: self.systems.deep_view(),
            steps: self.steps.deep_view(),
        }
    }
}

/// One named entry of the plan's subflake mapping.
pub struct Entry {
    pub name: Vec<u8>,
    pub subflake: Subflake,
}

/// Mathematical image of an `Entry`.
pub struct EntryView {
    pub name: Seq<u8>,
    pub subflake: SubflakeView,
}

impl View for Entry {
    type V = EntryView;

    open spec fn view(&self) -> EntryView {
        EntryView { name: self.name@, subflake: self.subflake@ }
    }
}

/// The images of a sequence of entries.
pub open spec fn entry_views(s: Seq<Entry>) -> Seq<EntryView> {
    Seq::new(s.len(), |i: int| s[i]@)
}

/// A mapping has each subflake name at most once.
pub open spec fn names_unique(s: Seq<EntryView>) -> bool {
    forall|i: int, j: int| 0 <= i < j < s.len() ==> s[i].name != s[j].name
}

/// The entries stand in lexicographically sorted name order.
pub open spec fn name_sorted(s: Seq<EntryView>) -> bool {
    forall|i: int, j: int| 0 <= i < j < s.len() ==> lex_le(s[i].name, s[j].name)
}

/// A subflake is compatible with the resolved platform set iff the
/// intersection of its declared supported platforms and that set is
/// non-empty; a subflake that declares no list supports every platform.
pub open spec fn compatible(sub: SubflakeView, systems: Seq<Seq<u8>>) -> bool {
    match sub.systems {
        None => true,
        Some(ss) => exists|i: int, j: int|
            0 <= i < ss.len() && 0 <= j < systems.len() && ss[i] == systems[j],
    }
}

/// A selector naming a subflake admits that subflake alone; no selector
/// admits every subflake.
pub open spec fn selected(selector: Option<Seq<u8>>, name: Seq<u8>) -> bool {
    match selector {
        None => true,
        Some(s) => s == name,
    }
}

/// A subflake is attempted iff it passes both the selector filter and the
/// platform-compatibility filter.
pub open spec fn is_attempted(e: EntryView, selector: Option<Seq<u8>>, systems: Seq<Seq<u8>>) -> bool {
    selected(selector, e.name) && compatible(e.subflake, systems)
}

proof fn lemma_intersects(sub: SubflakeView, systems: Seq<Seq<u8>>, i: int, j: int)
    requires
        sub.systems matches Some(ss) && 0 <= i < ss.len() && 0 <= j < systems.len() && ss[i]
            == systems[j],
    ensures
        compatible(sub, systems),
{
    let ss = sub.systems->Some_0;
    assert(0 <= i < ss.len() && 0 <= j < systems.len() && ss[i] == systems[j]);
}

impl Subflake {
    /// Decides platform compatibility against the resolved platform set.
    pub fn can_run_on(&self, systems: &Vec<Vec<u8>>) -> (r: bool)
        ensures
            r == compatible(self@, systems.deep_view()),
    {
        match &self.systems {
            None => true,
            Some(ss) => {
                let n = ss.len();
                let mut i: usize = 0;
                while i < n
                    invariant
                        i <= n,
                        n == ss@.len(),
                        self.systems == Some(*ss),
                        forall|a: int, b: int|
                            0 <= a < i && 0 <= b < systems.deep_view().len()
                                ==> ss.deep_view()[a] != systems.deep_view()[b],
                    decreases n - i,
                {
                    let m = systems.len();
                    let mut j: usize = 0;
                    while j < m
                        invariant
                            i < n,
                            j <= m,
                            n == ss@.len(),
                            m == systems@.len(),
                            self.systems == Some(*ss),
                            forall|a: int, b: int|
                                0 <= a < i && 0 <= b < systems.deep_view().len()
                                    ==> ss.deep_view()[a] != systems.deep_view()[b],
                            forall|b: int|
                                0 <= b < j ==> ss.deep_view()[i as int] != systems.deep_view()[b],
                        decreases m - j,
                    {
                        if bytes_eq(&ss[i], &systems[j]) {
                            proof {
                                let ssv = ss.deep_view();
                                let sysv = systems.deep_view();
                                assert(self@.systems == Some(ssv));
                                assert(ssv[i as int] == ss@[i as int]@);
                                assert(sysv[j as int] == systems@[j as int]@);
                                assert((i as int) < ssv.len() && (j as int) < sysv.len()
                                    && ssv[i as int] == sysv[j as int]);
                                lemma_intersects(self@, sysv, i as int, j as int);
                            }
                            return true;
                        }
                        proof {
                            assert(ss.deep_view()[i as int] == ss@[i as int]@);
                            assert(systems.deep_view()[j as int] == systems@[j as int]@);
                        }
                        j = j + 1;
                    }
                    i = i + 1;
                }
                proof {
                    assert(self@.systems == Some(ss.deep_view()));
                }
                false
            },
        }
    }
}

/// The plan: the subflake mapping that a run orchestrates.
pub struct SubflakesConfig {
    pub entries: Vec<Entry>,
}

impl View for SubflakesConfig {
    type V = Seq<EntryView>;

    open spec fn view(&self) -> Seq<EntryView> {
        entry_views(self.entries@)
    }
}

impl SubflakesConfig {
    /// Builds the plan out of the raw entries that the configuration
    /// projection produced, rejecting a mapping whose keys repeat.
    pub fn from_entries(entries: Vec<Entry>) -> (r: Result<SubflakesConfig, CiError>)
        ensures
            names_unique(entry_views(entries@)) ==> (r matches Ok(c) && c@ == entry_views(
                entries@,
            )),
            !names_unique(entry_views(entries@)) ==> (r matches Err(e) && (e@ matches
            CiErrorView::ConfigError { name } && exists|i: int, j: int|
                0 <= i < j < entry_views(entries@).len() && entry_views(entries@)[i].name == name
                    && entry_views(entries@)[j].name == name)),
    {
        let n = entries.len();
        let mut i: usize = 0;
        while i < n
            invariant
                i <= n,
                n == entries@.len(),
                forall|a: int, b: int|
                    0 <= a < b < entries@.len() && a < i ==> entry_views(entries@)[a].name
                        != entry_views(entries@)[b].name,
            decreases n - i,
        {
            let mut j: usize = i + 1;
            while j < n
                invariant
                    i < n,
                    i < j,
                    j <= n,
                    n == entries@.len(),
                    forall|b: int|
                        i < b < j ==> entry_views(entries@)[i as int].name
                            != entry_views(entries@)[b].name,
                decreases n - j,
            {
                if bytes_eq(&entries[i].name, &entries[j].name) {
                    let name = crate::bytes::clone_bytes(&entries[i].name);
                    proof {
                        let vs = entry_views(entries@);
                        assert(vs[i as int].name == entries@[i as int].name@);
                        assert(vs[j as int].name == entries@[j as int].name@);
                        assert(vs[i as int].name == name@ && vs[j as int].name == name@);
                        assert(!names_unique(vs));
                    }
                    return Err(CiError::ConfigError { name });
                }
                j = j + 1;
            }
            i = i + 1;
        }
        Ok(SubflakesConfig { entries })
    }

    /// Hands the entries back in lexicographically sorted name order: the
    /// deterministic order in which the engine walks the plan.
    pub fn sorted_entries(self) -> (r: Vec<Entry>)
        ensures
            name_sorted(entry_views(r@)),
            entry_views(r@).to_multiset() == self@.to_multiset(),
    {
        let ghost orig: Seq<EntryView> = self@;
        let mut src = self.entries;
        let mut out: Vec<Entry> = Vec::new();
        proof {
            assert(entry_views(out@).to_multiset().add(entry_views(src@).to_multiset())
                =~= orig.to_multiset());
        }
        while src.len() > 0
            invariant
                entry_views(out@).to_multiset().add(entry_views(src@).to_multiset())
                    == orig.to_multiset(),
                name_sorted(entry_views(out@)),
                forall|a: int, b: int|
                    0 <= a < out@.len() && 0 <= b < src@.len() ==> lex_le(
                        entry_views(out@)[a].name,
                        entry_views(src@)[b].name,
                    ),
            decreases src.len(),
        {
            let mut m: usize = 0;
            let mut k: usize = 1;
            proof {
                crate::bytes::lemma_lex_lt_irreflexive(entry_views(src@)[0].name);
            }
            while k < src.len()
                invariant
                    m < k,
                    k <= src@.len(),
                    forall|t: int|
                        0 <= t < k ==> lex_le(
                            entry_views(src@)[m as int].name,
                            entry_views(src@)[t].name,
                        ),
                decreases src@.len() - k,
            {
                if bytes_lt(&src[k].name, &src[m].name) {
                    proof {
                        let ghost old_m = m as int;
                        assert forall|t: int| 0 <= t < k + 1 implies lex_le(
                            entry_views(src@)[k as int].name,
                            entry_views(src@)[t].name,
                        ) by {
                            let kn = entry_views(src@)[k as int].name;
                            let tn = entry_views(src@)[t].name;
                            let mn = entry_views(src@)[old_m].name;
                            crate::bytes::lemma_lex_lt_irreflexive(kn);
                            if lex_lt(tn, kn) {
                                lemma_lex_lt_transitive(tn, kn, mn);
                            }
                        }
                    }
                    m = k;
                } else {
                    proof {
                        assert forall|t: int| 0 <= t < k + 1 implies lex_le(
                            entry_views(src@)[m as int].name,
                            entry_views(src@)[t].name,
                        ) by {
                        }
                    }
                }
                k = k + 1;
            }
            let ghost pre_src = src@;
            let ghost pre_out = out@;
            let e = src.remove(m);
            proof {
                assert(entry_views(pre_src.remove(m as int)) =~= entry_views(pre_src).remove(
                    m as int,
                ));
                assert(entry_views(pre_src).contains(e@));
            }
            out.push(e);
            proof {
                assert(entry_views(pre_out.push(e)) =~= entry_views(pre_out).push(e@));
                let oms = entry_views(pre_out).to_multiset();
                let sms = entry_views(pre_src).to_multiset();
                assert(entry_views(src@).to_multiset() =~= sms.remove(e@));
                assert(entry_views(out@).to_multiset() =~= oms.insert(e@));
                assert(sms.count(e@) > 0);
                assert(oms.insert(e@).add(sms.remove(e@)) =~= oms.add(sms));
                // the new last element keeps the output sorted and below the rest
                assert forall|a: int, b: int|
                    0 <= a < out@.len() && 0 <= b < src@.len() implies lex_le(
                    entry_views(out@)[a].name,
                    entry_views(src@)[b].name,
                ) by {
                    assert(entry_views(src@)[b] == entry_views(pre_src)[if b < m as int {
                        b
                    } else {
                        b + 1
                    }]);
                    if a < pre_out.len() {
                        assert(entry_views(out@)[a] == entry_views(pre_out)[a]);
                    } else {
                        assert(entry_views(out@)[a] == e@);
                    }
                }
                assert(name_sorted(entry_views(out@)));
            }
        }
        proof {
            assert(entry_views(src@).to_multiset() =~= Multiset::<EntryView>::empty());
            assert(entry_views(out@).to_multiset().add(Multiset::<EntryView>::empty())
                =~= entry_views(out@).to_multiset());
        }
        out
    }
}

/// A name-sorted mapping with unique names is pinned down by its entries
/// alone: however the configuration document ordered them, the engine's
/// iteration order is the same.
pub proof fn lemma_sorted_unique_by_name(x: Seq<EntryView>, y: Seq<EntryView>)
    requires
        name_sorted(x),
        name_sorted(y),
        names_unique(x),
        x.to_multiset() == y.to_multiset(),
    ensures
        x == y,
    decreases x.len(),
{
    if x.len() == 0 {
        assert(x.len() == x.to_multiset().len());
        assert(y.len() == y.to_multiset().len());
        assert(x =~= y);
    } else {
        assert(x.len() == x.to_multiset().len());
        assert(y.len() == y.to_multiset().len());
        assert(x.contains(x[0]));
        assert(x.to_multiset().count(x[0]) > 0);
        assert(y.to_multiset().count(x[0]) > 0);
        assert(y.contains(x[0]));
        assert(y.contains(y[0]));
        assert(y.to_multiset().count(y[0]) > 0);
        assert(x.to_multiset().count(y[0]) > 0);
        assert(x.contains(y[0]));
        let kx = choose|k: int| 0 <= k < y.len() && y[k] == x[0];
        let ky = choose|k: int| 0 <= k < x.len() && x[k] == y[0];
        crate::bytes::lemma_lex_lt_irreflexive(x[0].name);
        crate::bytes::lemma_lex_lt_irreflexive(y[0].name);
        assert(y[kx] == x[0]);
        assert(lex_le(y[0].name, x[0].name));
        assert(lex_le(x[0].name, y[0].name));
        lemma_lex_lt_total(x[0].name, y[0].name);
        assert(x[0].name == y[0].name);
        assert(x[ky] == y[0]);
        if ky != 0 {
            assert(x[0].name != x[ky].name);
            assert(false);
        }
        assert(x[0] == y[0]);
        let xt = x.drop_first();
        let yt = y.drop_first();
        assert(xt =~= x.remove(0));
        assert(yt =~= y.remove(0));
        assert(xt.to_multiset() == x.to_multiset().remove(x[0]));
        assert(yt.to_multiset() == y.to_multiset().remove(y[0]));
        assert(xt.to_multiset() == yt.to_multiset());
        assert forall|i: int, j: int| 0 <= i < j < xt.len() implies xt[i].name != xt[j].name by {
            assert(xt[i] == x[i + 1]);
            assert(xt[j] == x[j + 1]);
        }
        assert forall|i: int, j: int| 0 <= i < j < xt.len() implies lex_le(
            xt[i].name,
            xt[j].name,
        ) by {
            assert(xt[i] == x[i + 1]);
            assert(xt[j] == x[j + 1]);
        }
        assert forall|i: int, j: int| 0 <= i < j < yt.len() implies lex_le(
            yt[i].name,
            yt[j].name,
        ) by {
            assert(yt[i] == y[i + 1]);
            assert(yt[j] == y[j + 1]);
        }
        lemma_sorted_unique_by_name(xt, yt);
        assert(x.len() == y.len());
        assert forall|i: int| 0 <= i < x.len() implies x[i] == y[i] by {
            if i > 0 {
                assert(x[i] == xt[i - 1]);
                assert(y[i] == yt[i - 1]);
            }
        }
        assert(x =~= y);
    }
}

/// The typed configuration that the projection layer produces for a run:
/// the flake reference it came from, the attribute path that scopes the
/// run, and the subflake mapping found under the orchestration key.
pub struct OmConfig {
    /// The flake or configuration reference the plan was read from.
    pub flake_url: Vec<u8>,
    /// The attribute path following the reference; its first element, if
    /// any, selects a single subflake.
    pub attrs: Vec<Vec<u8>>,
    /// The subflake mapping.
    pub subflakes: SubflakesConfig,
}

impl OmConfig {
    /// The selector: the first attribute-path element, if one was given.
    pub open spec fn spec_selector(&self) -> Option<Seq<u8>> {
        if self.attrs.deep_view().len() == 0 {
            None
        } else {
            Some(self.attrs.deep_view()[0])
        }
    }

    /// Extracts the selector that narrows the run to one subflake.
    pub fn selector(&self) -> (r: Option<&Vec<u8>>)
        ensures
            match r {
                None => self.spec_selector() is None,
                Some(s) => self.spec_selector() == Some(s@),
            },
    {
        if self.attrs.len() == 0 {
            None
        } else {
            Some(&self.attrs[0])
        }
    }
}

} // verus!
