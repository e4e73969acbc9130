//! Flake templates: the typed template data a flake's template set
//! evaluates to, the merge of the two template maps, the parameter
//! replacements, and the one-line listing form.

use vstd::prelude::*;

use crate::bytes::{byte_views, bytes_eq, clone_bytes, clone_bytes_list};

verus! {

broadcast use {crate::bytes::lemma_bytes_deep_view, crate::bytes::lemma_bytes_list_deep_view};

/// One file operation a template parameter expands to: replace every
/// occurrence of `from` with `to` in the file at `path`.
pub struct FileOp {
    pub path: Vec<u8>,
    pub from: Vec<u8>,
    pub to: Vec<u8>,
}

/// Mathematical image of a `FileOp`.
pub struct FileOpView {
    pub path: Seq<u8>,
    pub from: Seq<u8>,
    pub to: Seq<u8>,
}

impl View for FileOp {
    type V = FileOpView;

    open spec fn view(&self) -> FileOpView {
        FileOpView { path: self.path@, from: self.from@, to: self.to@ }
    }
}

/// The images of a sequence of file operations.
pub open spec fn op_views(s: Seq<FileOp>) -> Seq<FileOpView> {
    Seq::new(s.len(), |i: int| s[i]@)
}

/// One template parameter: the placeholder it replaces and the files the
/// replacement touches. The value itself is prompted from the user by the
/// caller.
pub struct TemplateParam {
    pub name: Vec<u8>,
    pub placeholder: Vec<u8>,
    pub files: Vec<Vec<u8>>,
}

/// Mathematical image of a `TemplateParam`.
pub struct TemplateParamView {
    pub name: Seq<u8>,
    pub placeholder: Seq<u8>,
    pub files: Seq<Seq<u8>>,
}

impl View for TemplateParam {
    type V = TemplateParamView;

    open spec fn view(&self) -> TemplateParamView {
        TemplateParamView {
            name: self.name@,
            placeholder: self.placeholder@,
            files: byte_views(self.files@),
        }
    }
}

/// The images of a sequence of template parameters.
pub open spec fn param_views(s: Seq<TemplateParam>) -> Seq<TemplateParamView> {
    Seq::new(s.len(), |i: int| s[i]@)
}

/// The file operations one parameter expands to under a prompted value.
pub open spec fn ops_of_param(placeholder: Seq<u8>, files: Seq<Seq<u8>>, value: Seq<u8>) -> Seq<
    FileOpView,
> {
    Seq::new(files.len(), |i: int| FileOpView { path: files[i], from: placeholder, to: value })
}

/// A flake template, as the template set of a flake evaluates to, joined
/// with its scaffolding configuration.
pub struct FlakeTemplate {
    pub name: Vec<u8>,
    pub description: Vec<u8>,
    pub path: Vec<u8>,
    pub welcome_text: Option<Vec<u8>>,
    pub params: Vec<TemplateParam>,
    pub tags: Vec<Vec<u8>>,
}

/// Mathematical image of a `FlakeTemplate`.
pub struct FlakeTemplateView {
    pub name: Seq<u8>,
    pub description: Seq<u8>,
    pub path: Seq<u8>,
    pub welcome_text: Option<Seq<u8>>,
    pub params: Seq<TemplateParamView>,
    pub tags: Seq<Seq<u8>>,
}

impl View for FlakeTemplate {
    type V = FlakeTemplateView;

    open spec fn view(&self) -> FlakeTemplateView {
        FlakeTemplateView {
            name: self.name@,
            description: self.description@,
            path: self.path@,
            welcome_text: self.welcome_text.deep_view(),
            params: param_views(self.params@),
            tags: byte_views(self.tags@),
        }
    }
}

impl FlakeTemplate {
    /// The file operations of every parameter, one list per parameter, for
    /// the values the caller prompted — one value per parameter, in
    /// parameter order; `None` if the counts differ.
    pub fn prompt_replacements(&self, values: &Vec<Vec<u8>>) -> (r: Option<Vec<Vec<FileOp>>>)
        ensures
            values@.len() != self.params@.len() ==> r is None,
            values@.len() == self.params@.len() ==> (r matches Some(ops) && ops@.len()
                == self.params@.len() && forall|i: int|
                0 <= i < ops@.len() ==> op_views(ops@[i]@) == ops_of_param(
                    self.params@[i].placeholder@,
                    byte_views(self.params@[i].files@),
                    values@[i]@,
                )),
    {
        if values.len() != self.params.len() {
            return None;
        }
        let n = self.params.len();
        let mut ops: Vec<Vec<FileOp>> = Vec::new();
        let mut i: usize = 0;
        while i < n
            invariant
                i <= n,
                n == self.params@.len(),
                values@.len() == n,
                ops@.len() == i,
                forall|k: int|
                    0 <= k < i ==> op_views(ops@[k]@) == ops_of_param(
                        self.params@[k].placeholder@,
                        byte_views(self.params@[k].files@),
                        values@[k]@,
                    ),
            decreases n - i,
        {
            let p = &self.params[i];
            let m = p.files.len();
            let mut one: Vec<FileOp> = Vec::new();
            let mut j: usize = 0;
            while j < m
                invariant
                    j <= m,
                    m == p.files@.len(),
                    i < n,
                    n == self.params@.len(),
                    values@.len() == n,
                    p == &self.params@[i as int],
                    one@.len() == j,
                    forall|k: int|
                        0 <= k < j ==> op_views(one@)[k] == (FileOpView {
                            path: p.files@[k]@,
                            from: p.placeholder@,
                            to: values@[i as int]@,
                        }),
                decreases m - j,
            {
                let op = FileOp {
                    path: clone_bytes(&p.files[j]),
                    from: clone_bytes(&p.placeholder),
                    to: clone_bytes(&values[i]),
                };
                let ghost pre = one@;
                one.push(op);
                proof {
                    assert forall|k: int| 0 <= k < one@.len() implies op_views(one@)[k]
                        == (FileOpView {
                        path: p.files@[k]@,
                        from: p.placeholder@,
                        to: values@[i as int]@,
                    }) by {
                        if k < pre.len() {
                            assert(one@[k] == pre[k]);
                            assert(op_views(pre)[k] == pre[k]@);
                        } else {
                            assert(one@[k] == op);
                        }
                    }
                }
                j = j + 1;
            }
            proof {
                assert(op_views(one@) =~= ops_of_param(
                    self.params@[i as int].placeholder@,
                    byte_views(self.params@[i as int].files@),
                    values@[i as int]@,
                ));
            }
            let ghost pre_ops = ops@;
            ops.push(one);
            proof {
                assert forall|k: int|
                    0 <= k < ops@.len() implies op_views(ops@[k]@) == ops_of_param(
                    self.params@[k].placeholder@,
                    byte_views(self.params@[k].files@),
                    values@[k]@,
                ) by {
                    if k < pre_ops.len() {
                        assert(ops@[k] == pre_ops[k]);
                    } else {
                        assert(ops@[k] == one);
                    }
                }
            }
            i = i + 1;
        }
        Some(ops)
    }

    /// The one-line listing form: the bare name, or — when the template
    /// carries tags — the name padded to the listing column width, a space,
    /// and the tags joined by a comma and a space.
    pub fn display_line(&self) -> (r: Vec<u8>)
        ensures
            self.tags@.len() == 0 ==> r@ == self.name@,
            self.tags@.len() > 0 ==> r@ == padded_name(self.name@) + seq![32u8] + joined_tags(
                byte_views(self.tags@),
            ),
    {
        if self.tags.len() == 0 {
            return clone_bytes(&self.name);
        }
        let mut r = clone_bytes(&self.name);
        while r.len() < 20
            invariant
                padded_name(self.name@) == padded_name(r@),
            decreases 20 - r@.len(),
        {
            let ghost pre = r@;
            r.push(32);
            proof {
                lemma_padded_step(pre);
            }
        }
        proof {
            assert(padded_name(r@) == r@);
        }
        r.push(32);
        let n = self.tags.len();
        let mut i: usize = 0;
        let ghost tags = byte_views(self.tags@);
        let ghost base = r@;
        proof {
            assert(tags.take(1).drop_last() =~= Seq::<Seq<u8>>::empty());
            assert(joined_head(Seq::<Seq<u8>>::empty()) == Seq::<u8>::empty());
            assert(tags.take(1).last() == tags[0]);
            assert(joined_head(tags.take(1)) =~= tags[0]);
        }
        while i < n
            invariant
                i <= n,
                n == self.tags@.len(),
                n > 0,
                tags == byte_views(self.tags@),
                i == 0 ==> r@ == base,
                i > 0 ==> r@ == base + joined_head(tags.take(i as int)),
            decreases n - i,
        {
            if i > 0 {
                r.push(44);
                r.push(32);
            }
            let ghost pre = r@;
            let mut t = clone_bytes(&self.tags[i]);
            r.append(&mut t);
            proof {
                assert(self.tags@[i as int]@ == tags[i as int]);
                if i > 0 {
                    lemma_joined_step(tags, i as int);
                    assert(r@ =~= base + joined_head(tags.take(i as int + 1)));
                } else {
                    assert(tags.take(1).drop_last() =~= Seq::<Seq<u8>>::empty());
                    assert(joined_head(Seq::<Seq<u8>>::empty()) == Seq::<u8>::empty());
                    assert(tags.take(1).last() == tags[0]);
                    assert(joined_head(tags.take(1)) =~= tags[0]);
                    assert(r@ =~= base + joined_head(tags.take(1)));
                }
            }
            i = i + 1;
        }
        proof {
            assert(tags.take(n as int) =~= tags);
            assert(joined_tags(tags) == joined_head(tags));
        }
        r
    }
}

/// The listing column width for template names.
pub open spec fn padded_name(name: Seq<u8>) -> Seq<u8>
    decreases 20 - name.len(),
{
    if name.len() >= 20 {
        name
    } else {
        padded_name(name.push(32u8))
    }
}

proof fn lemma_padded_step(s: Seq<u8>)
    requires
        s.len() < 20,
    ensures
        padded_name(s) == padded_name(s.push(32u8)),
{
}

/// Tags joined by a comma and a space.
pub open spec fn joined_head(tags: Seq<Seq<u8>>) -> Seq<u8>
    decreases tags.len(),
{
    if tags.len() == 0 {
        Seq::empty()
    } else {
        joined_head(tags.drop_last()) + (if tags.len() == 1 {
            Seq::empty()
        } else {
            seq![44u8, 32u8]
        }) + tags.last()
    }
}

/// Tags joined by a comma and a space (the listing form).
pub open spec fn joined_tags(tags: Seq<Seq<u8>>) -> Seq<u8> {
    joined_head(tags)
}

proof fn lemma_joined_step(tags: Seq<Seq<u8>>, i: int)
    requires
        0 < i < tags.len(),
    ensures
        joined_head(tags.take(i + 1)) == joined_head(tags.take(i)) + seq![44u8, 32u8] + tags[i],
{
    assert(tags.take(i + 1).drop_last() =~= tags.take(i));
    assert(tags.take(i + 1).last() == tags[i]);
}

/// A template's scaffolding configuration, as the flake's own template
/// configuration set evaluates to.
pub struct TemplateConfig {
    pub params: Vec<TemplateParam>,
    pub tags: Vec<Vec<u8>>,
}

/// Mathematical image of a `TemplateConfig`.
pub struct TemplateConfigView {
    pub params: Seq<TemplateParamView>,
    pub tags: Seq<Seq<u8>>,
}

impl View for TemplateConfig {
    type V = TemplateConfigView;

    open spec fn view(&self) -> TemplateConfigView {
        TemplateConfigView { params: param_views(self.params@), tags: byte_views(self.tags@) }
    }
}

/// The images of the evaluated template map's entries.
pub open spec fn template_entry_views(s: Seq<(Vec<u8>, FlakeTemplate)>) -> Seq<
    (Seq<u8>, FlakeTemplateView),
> {
    Seq::new(s.len(), |i: int| (s[i].0@, s[i].1@))
}

/// The images of the evaluated configuration map's entries.
pub open spec fn config_entry_views(s: Seq<(Vec<u8>, TemplateConfig)>) -> Seq<
    (Seq<u8>, TemplateConfigView),
> {
    Seq::new(s.len(), |i: int| (s[i].0@, s[i].1@))
}

/// The configuration under a key: the first entry whose key matches.
pub open spec fn config_under(cfgs: Seq<(Seq<u8>, TemplateConfigView)>, key: Seq<u8>) -> Option<
    TemplateConfigView,
>
    decreases cfgs.len(),
{
    if cfgs.len() == 0 {
        None
    } else if cfgs[0].0 == key {
        Some(cfgs[0].1)
    } else {
        config_under(cfgs.drop_first(), key)
    }
}

/// What one template map entry merges to: the template takes its key as its
/// name and keeps its description, path and welcome text; its parameters and
/// tags come from the configuration under the same key, and are empty when
/// no configuration names it.
pub open spec fn merged_template(
    entry: (Seq<u8>, FlakeTemplateView),
    cfgs: Seq<(Seq<u8>, TemplateConfigView)>,
) -> FlakeTemplateView {
    let adopted = config_under(cfgs, entry.0);
    FlakeTemplateView {
        name: entry.0,
        description: entry.1.description,
        path: entry.1.path,
        welcome_text: entry.1.welcome_text,
        params: match adopted {
            Some(c) => c.params,
            None => Seq::empty(),
        },
        tags: match adopted {
            Some(c) => c.tags,
            None => Seq::empty(),
        },
    }
}

proof fn lemma_config_under_skip(cfgs: Seq<(Seq<u8>, TemplateConfigView)>, key: Seq<u8>, k: int)
    requires
        0 <= k <= cfgs.len(),
        forall|t: int| 0 <= t < k ==> cfgs[t].0 != key,
    ensures
        config_under(cfgs, key) == config_under(cfgs.skip(k), key),
    decreases k,
{
    if k > 0 {
        assert(cfgs[0].0 != key);
        assert forall|t: int| 0 <= t < k - 1 implies cfgs.drop_first()[t].0 != key by {
            assert(cfgs.drop_first()[t] == cfgs[t + 1]);
        }
        lemma_config_under_skip(cfgs.drop_first(), key, k - 1);
        assert(cfgs.drop_first().skip(k - 1) =~= cfgs.skip(k));
    } else {
        assert(cfgs.skip(0) =~= cfgs);
    }
}

fn clone_param(p: &TemplateParam) -> (r: TemplateParam)
    ensures
        r@ == p@,
{
    let r = TemplateParam {
        name: clone_bytes(&p.name),
        placeholder: clone_bytes(&p.placeholder),
        files: clone_bytes_list(&p.files),
    };
    proof {
        assert(byte_views(r.files@) =~= byte_views(p.files@));
    }
    r
}

fn clone_params(v: &Vec<TemplateParam>) -> (r: Vec<TemplateParam>)
    ensures
        param_views(r@) == param_views(v@),
{
    let mut r: Vec<TemplateParam> = Vec::new();
    let n = v.len();
    let mut i: usize = 0;
    while i < n
        invariant
            i <= n,
            n == v@.len(),
            r@.len() == i,
            forall|k: int| 0 <= k < i ==> r@[k]@ == v@[k]@,
        decreases n - i,
    {
        let item = clone_param(&v[i]);
        r.push(item);
        i = i + 1;
    }
    proof {
        assert(param_views(r@) =~= param_views(v@));
    }
    r
}

/// Joins the evaluated template map with the evaluated configuration map:
/// each template takes its key as its name, keeps its own description, path
/// and welcome text, and adopts the parameters and tags of the
/// configuration under the same key — or none, when no configuration names
/// it. The templates keep their map order.
pub fn merge_template_configs(
    templates: Vec<(Vec<u8>, FlakeTemplate)>,
    configs: Vec<(Vec<u8>, TemplateConfig)>,
) -> (r: Vec<FlakeTemplate>)
    ensures
        r@.len() == templates@.len(),
        forall|i: int|
            0 <= i < r@.len() ==> r@[i]@ == merged_template(
                template_entry_views(templates@)[i],
                config_entry_views(configs@),
            ),
{
    let ghost tviews = template_entry_views(templates@);
    let ghost cviews = config_entry_views(configs@);
    let mut out: Vec<FlakeTemplate> = Vec::new();
    let mut rest = templates;
    while rest.len() > 0
        invariant
            tviews == template_entry_views(templates@),
            cviews == config_entry_views(configs@),
            out@.len() + rest@.len() == templates@.len(),
            forall|i: int| 0 <= i < rest@.len() ==> rest@[i] == templates@[out@.len() + i],
            forall|i: int| 0 <= i < out@.len() ==> out@[i]@ == merged_template(tviews[i], cviews),
        decreases rest@.len(),
    {
        let ghost pre_rest = rest@;
        let ghost idx = out@.len() as int;
        let (name, mut t) = rest.remove(0);
        proof {
            assert(pre_rest[0] == templates@[idx]);
            assert(name@ == tviews[idx].0);
            assert(t@ == tviews[idx].1);
        }
        let m = configs.len();
        let ghost t0 = t@;
        let mut k: usize = 0;
        let mut adopted = false;
        while k < m
            invariant
                k <= m,
                m == configs@.len(),
                cviews == config_entry_views(configs@),
                t.description@ == t0.description,
                t.path@ == t0.path,
                t.welcome_text.deep_view() == t0.welcome_text,
                !adopted ==> forall|u: int| 0 <= u < k ==> cviews[u].0 != name@,
                adopted ==> (k == m && (config_under(cviews, name@) matches Some(c)
                    && param_views(t.params@) == c.params && byte_views(t.tags@) == c.tags)),
            decreases m - k,
        {
            if !adopted && bytes_eq(&configs[k].0, &name) {
                proof {
                    assert(cviews[k as int].0 == configs@[k as int].0@);
                    lemma_config_under_skip(cviews, name@, k as int);
                    assert(cviews.skip(k as int)[0] == cviews[k as int]);
                    assert(config_under(cviews, name@) == Some(cviews[k as int].1));
                }
                t.params = clone_params(&configs[k].1.params);
                t.tags = clone_bytes_list(&configs[k].1.tags);
                proof {
                    assert(cviews[k as int].1 == configs@[k as int].1@);
                    assert(byte_views(t.tags@) =~= byte_views(configs@[k as int].1.tags@));
                }
                adopted = true;
                k = m;
            } else {
                proof {
                    assert(cviews[k as int].0 == configs@[k as int].0@);
                }
                k = k + 1;
            }
        }
        if !adopted {
            proof {
                lemma_config_under_skip(cviews, name@, cviews.len() as int);
                assert(cviews.skip(cviews.len() as int) =~= Seq::<
                    (Seq<u8>, TemplateConfigView),
                >::empty());
                assert(config_under(cviews, name@) is None);
            }
            t.params = Vec::new();
            t.tags = Vec::new();
            proof {
                assert(param_views(t.params@) =~= Seq::<TemplateParamView>::empty());
                assert(byte_views(t.tags@) =~= Seq::<Seq<u8>>::empty());
            }
        }
        t.name = name;
        out.push(t);
        proof {
            assert(out@[idx]@ == merged_template(tviews[idx], cviews));
            assert forall|i: int| 0 <= i < rest@.len() implies rest@[i] == templates@[out@.len()
                + i] by {
                assert(rest@[i] == pre_rest[i + 1]);
            }
        }
    }
    out
}

} // verus!
