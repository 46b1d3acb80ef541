//! The typed form of a BTR protocol document: an ordered list of stream
//! instructions plus a name-keyed registry of templates for the repeat
//! instruction. The registry keeps its entries as a list of pairs; lookup
//! takes the first pair whose name matches.

use vstd::prelude::*;

verus! {

/// One stream instruction of a protocol document.
#[derive(Clone)]
pub enum BuildTimeRenderingStream {
    Attribute(BuildTimeRenderingStreamAttribute),
    Raw(BuildTimeRenderingStreamRaw),
    Repeat(BuildTimeRenderingStreamRepeat),
    Signal(BuildTimeRenderingStreamSignal),
    When(BuildTimeRenderingStreamWhen),
}

/// Emits `name=value`, the value resolved as a path with an optional
/// fallback.
#[derive(Clone)]
pub struct BuildTimeRenderingStreamAttribute {
    pub value: String,
    pub name: String,
    pub default_value: Option<String>,
}

/// Emits literal text.
#[derive(Clone)]
pub struct BuildTimeRenderingStreamRaw {
    pub value: String,
}

/// Expands a named template once per element of an array-valued path.
#[derive(Clone)]
pub struct BuildTimeRenderingStreamRepeat {
    pub value: String,
    pub template: String,
}

/// Emits a resolved scalar with an optional fallback.
#[derive(Clone)]
pub struct BuildTimeRenderingStreamSignal {
    pub value: String,
    pub default_value: Option<String>,
}

/// Emits a hiding marker when its condition evaluates false.
#[derive(Clone)]
pub struct BuildTimeRenderingStreamWhen {
    pub value: String,
}

/// A reusable fragment body with an optional style block.
#[derive(Clone)]
pub struct BuildTimeRenderingTemplate {
    pub style: Option<String>,
    pub template: String,
}

/// The template registry: names to templates, first match wins.
pub type BuildTimeRenderingStreamTemplateRecords = Vec<(String, BuildTimeRenderingTemplate)>;

/// A protocol document: instructions in render order plus the registry.
#[derive(Clone)]
pub struct BuildTimeRenderingProtocol {
    pub streams: Vec<BuildTimeRenderingStream>,
    pub templates: BuildTimeRenderingStreamTemplateRecords,
}

/// The model of one template.
pub struct TemplateModel {
    pub style: Option<Seq<char>>,
    pub template: Seq<char>,
}

/// The model of one stream instruction.
pub enum StreamModel {
    Attribute { value: Seq<char>, name: Seq<char>, default_value: Option<Seq<char>> },
    Raw { value: Seq<char> },
    Repeat { value: Seq<char>, template: Seq<char> },
    Signal { value: Seq<char>, default_value: Option<Seq<char>> },
    When { value: Seq<char> },
}

/// The model of a protocol document.
pub struct ProtocolModel {
    pub streams: Seq<StreamModel>,
    pub templates: Seq<(Seq<char>, TemplateModel)>,
}

/// The view of a maybe-string.
pub open spec fn opt_string_view(o: Option<String>) -> Option<Seq<char>> {
    match o {
        Some(s) => Some(s@),
        None => None,
    }
}

impl View for BuildTimeRenderingTemplate {
    type V = TemplateModel;

    open spec fn view(&self) -> TemplateModel {
        TemplateModel { style: opt_string_view(self.style), template: self.template@ }
    }
}

impl View for BuildTimeRenderingStream {
    type V = StreamModel;

    open spec fn view(&self) -> StreamModel {
        match self {
            BuildTimeRenderingStream::Attribute(a) => StreamModel::Attribute {
                value: a.value@,
                name: a.name@,
                default_value: opt_string_view(a.default_value),
            },
            BuildTimeRenderingStream::Raw(r) => StreamModel::Raw { value: r.value@ },
            BuildTimeRenderingStream::Repeat(r) => StreamModel::Repeat {
                value: r.value@,
                template: r.template@,
            },
            BuildTimeRenderingStream::Signal(s) => StreamModel::Signal {
                value: s.value@,
                default_value: opt_string_view(s.default_value),
            },
            BuildTimeRenderingStream::When(w) => StreamModel::When { value: w.value@ },
        }
    }
}

/// The models of the instructions, in order.
pub open spec fn streams_model(ss: Seq<BuildTimeRenderingStream>) -> Seq<StreamModel>
    decreases ss.len(),
{
    if ss.len() == 0 {
        Seq::empty()
    } else {
        seq![ss[0]@] + streams_model(ss.skip(1))
    }
}

/// The models of the registry entries, in order.
pub open spec fn templates_model(ts: Seq<(String, BuildTimeRenderingTemplate)>) -> Seq<
    (Seq<char>, TemplateModel),
>
    decreases ts.len(),
{
    if ts.len() == 0 {
        Seq::empty()
    } else {
        seq![(ts[0].0@, ts[0].1@)] + templates_model(ts.skip(1))
    }
}

pub broadcast proof fn lemma_streams_model_len(ss: Seq<BuildTimeRenderingStream>)
    ensures
        #[trigger] streams_model(ss).len() == ss.len(),
    decreases ss.len(),
{
    if ss.len() > 0 {
        lemma_streams_model_len(ss.skip(1));
    }
}

pub broadcast proof fn lemma_streams_model_index(ss: Seq<BuildTimeRenderingStream>, i: int)
    requires
        0 <= i < ss.len(),
    ensures
        #[trigger] streams_model(ss)[i] == ss[i]@,
    decreases ss.len(),
{
    lemma_streams_model_len(ss);
    if i > 0 {
        lemma_streams_model_index(ss.skip(1), i - 1);
    }
}

pub broadcast proof fn lemma_templates_model_len(ts: Seq<(String, BuildTimeRenderingTemplate)>)
    ensures
        #[trigger] templates_model(ts).len() == ts.len(),
    decreases ts.len(),
{
    if ts.len() > 0 {
        lemma_templates_model_len(ts.skip(1));
    }
}

pub broadcast proof fn lemma_templates_model_index(
    ts: Seq<(String, BuildTimeRenderingTemplate)>,
    i: int,
)
    requires
        0 <= i < ts.len(),
    ensures
        #[trigger] templates_model(ts)[i] == (ts[i].0@, ts[i].1@),
    decreases ts.len(),
{
    lemma_templates_model_len(ts);
    if i > 0 {
        lemma_templates_model_index(ts.skip(1), i - 1);
    }
}

pub broadcast group group_protocol_model {
    lemma_streams_model_len,
    lemma_streams_model_index,
    lemma_templates_model_len,
    lemma_templates_model_index,
}

impl View for BuildTimeRenderingProtocol {
    type V = ProtocolModel;

    open spec fn view(&self) -> ProtocolModel {
        ProtocolModel {
            streams: streams_model(self.streams@),
            templates: templates_model(self.templates@),
        }
    }
}

/// First-match lookup of a template by name.
pub open spec fn templ_lookup(ts: Seq<(Seq<char>, TemplateModel)>, name: Seq<char>) -> Option<
    TemplateModel,
>
    decreases ts.len(),
{
    if ts.len() == 0 {
        None
    } else if ts[0].0 == name {
        Some(ts[0].1)
    } else {
        templ_lookup(ts.skip(1), name)
    }
}

/// Finds the template registered under `name`, first match first.
#[verifier::loop_isolation(false)]
pub fn find_template<'a>(
    templates: &'a BuildTimeRenderingStreamTemplateRecords,
    name: &String,
) -> (r: Option<&'a BuildTimeRenderingTemplate>)
    ensures
        match r {
            Some(t) => templ_lookup(templates_model(templates@), name@) == Some(t@),
            None => templ_lookup(templates_model(templates@), name@) is None,
        },
{
    broadcast use group_protocol_model;

    let ghost m = templates_model(templates@);
    let mut j: usize = 0;
    proof {
        assert(m.skip(0) =~= m);
    }
    while j < templates.len()
        invariant
            j <= templates.len(),
            templ_lookup(m.skip(j as int), name@) == templ_lookup(m, name@),
        decreases templates.len() - j,
    {
        proof {
            assert(m.skip(j as int)[0] == m[j as int]);
            assert(m.skip(j as int).skip(1) =~= m.skip(j + 1));
        }
        if templates[j].0.eq(name) {
            return Some(&templates[j].1);
        }
        j = j + 1;
    }
    proof {
        assert(m.skip(templates@.len() as int).len() == 0);
    }
    None
}

/// Whether every repeat instruction names a registered template. A protocol
/// that fails this check renders with those repeats skipped; callers that
/// treat the inconsistency as fatal can test it first.
pub open spec fn spec_templates_present(p: ProtocolModel) -> bool {
    forall|i: int|
        0 <= i < p.streams.len() ==> match #[trigger] p.streams[i] {
            StreamModel::Repeat { template, .. } => templ_lookup(p.templates, template) is Some,
            _ => true,
        }
}

/// Checks that every repeat instruction names a registered template.
#[verifier::loop_isolation(false)]
pub fn templates_present(protocol: &BuildTimeRenderingProtocol) -> (r: bool)
    ensures
        r == spec_templates_present(protocol@),
{
    broadcast use group_protocol_model;

    let ghost sm = streams_model(protocol.streams@);
    let mut k: usize = 0;
    while k < protocol.streams.len()
        invariant
            k <= protocol.streams.len(),
            forall|i: int|
                0 <= i < k ==> match #[trigger] sm[i] {
                    StreamModel::Repeat { template, .. } => templ_lookup(
                        templates_model(protocol.templates@),
                        template,
                    ) is Some,
                    _ => true,
                },
        decreases protocol.streams.len() - k,
    {
        match &protocol.streams[k] {
            BuildTimeRenderingStream::Repeat(rep) => {
                if find_template(&protocol.templates, &rep.template).is_none() {
                    proof {
                        assert(sm[k as int] matches StreamModel::Repeat { template, .. }
                            && templ_lookup(templates_model(protocol.templates@), template)
                            is None);
                    }
                    return false;
                }
            },
            _ => {},
        }
        k = k + 1;
    }
    true
}

} // verus!
