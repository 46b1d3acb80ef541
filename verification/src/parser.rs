//! The stream interpreter: renders a protocol document against a state tree
//! through a caller-supplied sink.
//!
//! Instructions render strictly in document order, append-only:
//! - `Raw` writes its text verbatim.
//! - `Attribute` writes `name=value`, the value resolved as a path (strings
//!   verbatim, other kinds as JSON text), falling back to its default or to
//!   nothing.
//! - `Signal` writes the resolved value the same way, without the name.
//! - `When` writes the marker `style="display: none"` when its condition
//!   evaluates false, and nothing when it evaluates true.
//! - `Repeat` resolves its path; for each element of an array value it opens
//!   a wrapper named after the template, emits an inline template region with
//!   the optional style block and the fragment body, then the element's own
//!   content. A value that is not an array emits nothing; so does a repeat
//!   whose template is not registered — the defect is skippable by design,
//!   and [`crate::protocol::templates_present`] reports it beforehand.
//!
//! After the last instruction the sink's `end` is called, exactly once.

use vstd::prelude::*;
use crate::values::{
    Value, Val, val_wf, arr_model, obj_model, spec_resolve, find_value_by_dotted_path,
    group_value_model,
};
use crate::text::{
    int_text, json_text, value_text, joined_items_text, push_i64, push_json, push_value_text,
    push_joined_items,
};
use crate::expression::{spec_evaluate, safe_evaluate_expression};
use crate::protocol::{
    BuildTimeRenderingStream, BuildTimeRenderingProtocol, TemplateModel, StreamModel,
    ProtocolModel, streams_model, templates_model, templ_lookup, find_template,
    group_protocol_model,
};

verus! {

/// The sink a render writes through: `write` appends text, `end` marks the
/// output complete. The interpreter calls `end` exactly once, after the
/// last instruction.
pub trait ServerHandler {
    /// Everything written so far.
    spec fn out(&self) -> Seq<char>;

    /// Whether `end` has been called.
    spec fn ended(&self) -> bool;

    fn write(&mut self, value: &str)
        ensures
            final(self).out() == old(self).out() + value@,
            final(self).ended() == old(self).ended(),
    ;

    fn end(&mut self)
        ensures
            final(self).out() == old(self).out(),
            final(self).ended(),
    ;
}

/// A sink that collects everything written into a string.
pub struct StringServerHandler {
    output: String,
    done: bool,
}

impl ServerHandler for StringServerHandler {
    closed spec fn out(&self) -> Seq<char> {
        self.output@
    }

    closed spec fn ended(&self) -> bool {
        self.done
    }

    fn write(&mut self, value: &str) {
        self.output.append(value);
    }

    fn end(&mut self) {
        self.done = true;
    }
}

impl StringServerHandler {
    /// An empty sink.
    pub fn new() -> (r: StringServerHandler)
        ensures
            r.out() == Seq::<char>::empty(),
            !r.ended(),
    {
        StringServerHandler { output: String::new(), done: false }
    }

    /// A copy of everything written so far.
    pub fn get_output(&self) -> (r: String)
        ensures
            r@ == self.out(),
    {
        self.output.clone()
    }
}

/// What a resolved path renders as: the value's text, or the fallback, or
/// nothing.
pub open spec fn resolved_text(
    path: Seq<char>,
    default_value: Option<Seq<char>>,
    state: Val,
) -> Seq<char> {
    match spec_resolve(path, state) {
        Some(v) => value_text(v),
        None => match default_value {
            Some(d) => d,
            None => Seq::empty(),
        },
    }
}

/// What one slot value renders as inside an object item: strings verbatim,
/// arrays as JSON texts joined by `,`, everything else as JSON text.
pub open spec fn slot_value_text(v: Val) -> Seq<char> {
    match v {
        Val::Str(s) => s,
        Val::Arr(items) => joined_items_text(items),
        _ => json_text(v),
    }
}

/// The labelled slots of an object item, one per field, in field order.
pub open spec fn obj_slots_text(fields: Seq<(Seq<char>, Val)>) -> Seq<char>
    decreases fields.len(),
{
    if fields.len() == 0 {
        Seq::empty()
    } else {
        "<span slot=\""@ + fields[0].0 + "\">"@ + slot_value_text(fields[0].1) + "</span>"@
            + obj_slots_text(fields.skip(1))
    }
}

/// What one repeated element's own content renders as.
pub open spec fn item_text(item: Val) -> Seq<char> {
    match item {
        Val::Str(s) => s,
        Val::Num(n) => int_text(n),
        Val::Bool(_) => json_text(item),
        Val::Arr(items) => joined_items_text(items),
        Val::Obj(fields) => obj_slots_text(fields),
        Val::Null => Seq::empty(),
    }
}

/// The optional style block of a template region.
pub open spec fn style_text(style: Option<Seq<char>>) -> Seq<char> {
    match style {
        Some(st) => "<style>"@ + st + "</style>"@,
        None => Seq::empty(),
    }
}

/// One repeated element: wrapper, template region, the element's content.
pub open spec fn render_item(item: Val, name: Seq<char>, t: TemplateModel) -> Seq<char> {
    "<"@ + name + "><template shadowrootmode=\"open\">"@ + style_text(t.style) + t.template
        + "</template>"@ + item_text(item) + "</"@ + name + ">"@
}

/// The repeated elements, in array order.
pub open spec fn render_items(items: Seq<Val>, name: Seq<char>, t: TemplateModel) -> Seq<char>
    decreases items.len(),
{
    if items.len() == 0 {
        Seq::empty()
    } else {
        render_item(items[0], name, t) + render_items(items.skip(1), name, t)
    }
}

/// What one instruction writes.
pub open spec fn render_stream(
    s: StreamModel,
    templates: Seq<(Seq<char>, TemplateModel)>,
    state: Val,
) -> Seq<char> {
    match s {
        StreamModel::Raw { value } => value,
        StreamModel::Attribute { value, name, default_value } => name + "="@ + resolved_text(
            value,
            default_value,
            state,
        ),
        StreamModel::Signal { value, default_value } => resolved_text(value, default_value, state),
        StreamModel::When { value } => if spec_evaluate(value, state) {
            Seq::empty()
        } else {
            "style=\"display: none\""@
        },
        StreamModel::Repeat { value, template } => match spec_resolve(value, state) {
            Some(Val::Arr(items)) => match templ_lookup(templates, template) {
                Some(t) => render_items(items, template, t),
                None => Seq::empty(),
            },
            _ => Seq::empty(),
        },
    }
}

/// What the instructions from the front of `ss` write, in order.
pub open spec fn render_streams(
    ss: Seq<StreamModel>,
    templates: Seq<(Seq<char>, TemplateModel)>,
    state: Val,
) -> Seq<char>
    decreases ss.len(),
{
    if ss.len() == 0 {
        Seq::empty()
    } else {
        render_stream(ss[0], templates, state) + render_streams(ss.skip(1), templates, state)
    }
}

/// Everything a whole protocol document writes against a state tree.
pub open spec fn render_protocol(p: ProtocolModel, state: Val) -> Seq<char> {
    render_streams(p.streams, p.templates, state)
}

/// Appends one slot value.
fn push_slot_value(v: &Value, out: &mut String)
    ensures
        final(out)@ == old(out)@ + slot_value_text(v@),
{
    match v {
        Value::String(s) => {
            out.append(s.as_str());
        },
        Value::Array(items) => {
            push_joined_items(items, out);
        },
        _ => {
            push_json(v, out);
        },
    }
}

/// Appends the labelled slots of an object item.
#[verifier::loop_isolation(false)]
fn push_obj_slots(fields: &Vec<(String, Value)>, out: &mut String)
    ensures
        final(out)@ == old(out)@ + obj_slots_text(obj_model(fields@)),
{
    broadcast use group_value_model;

    let ghost m = obj_model(fields@);
    let mut j: usize = 0;
    proof {
        assert(m.skip(0) =~= m);
        assert(out@ + obj_slots_text(m) =~= old(out)@ + obj_slots_text(m));
    }
    while j < fields.len()
        invariant
            j <= fields.len(),
            out@ + obj_slots_text(m.skip(j as int)) == old(out)@ + obj_slots_text(m),
        decreases fields.len() - j,
    {
        proof {
            assert(m.skip(j as int)[0] == m[j as int]);
            assert(m.skip(j as int).skip(1) =~= m.skip(j + 1));
        }
        let ghost before = out@;
        out.append("<span slot=\"");
        out.append(fields[j].0.as_str());
        out.append("\">");
        push_slot_value(&fields[j].1, out);
        out.append("</span>");
        proof {
            assert(out@ =~= before + ("<span slot=\""@ + m[j as int].0 + "\">"@ + slot_value_text(
                m[j as int].1,
            ) + "</span>"@));
            assert(before + (("<span slot=\""@ + m[j as int].0 + "\">"@ + slot_value_text(
                m[j as int].1,
            ) + "</span>"@) + obj_slots_text(m.skip(j + 1))) =~= (before + ("<span slot=\""@
                + m[j as int].0 + "\">"@ + slot_value_text(m[j as int].1) + "</span>"@))
                + obj_slots_text(m.skip(j + 1)));
        }
        j = j + 1;
    }
    proof {
        assert(m.skip(fields@.len() as int).len() == 0);
        assert(out@ + obj_slots_text(m.skip(fields@.len() as int)) =~= out@);
    }
}

/// Appends one repeated element's own content.
fn push_item_text(item: &Value, out: &mut String)
    ensures
        final(out)@ == old(out)@ + item_text(item@),
{
    match item {
        Value::String(s) => {
            out.append(s.as_str());
        },
        Value::Number(n) => {
            push_i64(*n, out);
        },
        Value::Bool(_) => {
            push_json(item, out);
        },
        Value::Array(items) => {
            push_joined_items(items, out);
        },
        Value::Object(fields) => {
            push_obj_slots(fields, out);
        },
        Value::Null => {},
    }
}

/// Renders a protocol document against a state tree, writing through the
/// sink and calling its `end` once, after the last instruction.
#[verifier::loop_isolation(false)]
#[verifier::rlimit(100)]
pub fn handle_btr<H: ServerHandler>(
    protocol: BuildTimeRenderingProtocol,
    state: Value,
    server_handler: &mut H,
)
    requires
        val_wf(state@),
    ensures
        final(server_handler).out() == old(server_handler).out() + render_protocol(
            protocol@,
            state@,
        ),
        final(server_handler).ended() == true,
{
    broadcast use group_protocol_model;
    broadcast use group_value_model;

    let ghost sm = streams_model(protocol.streams@);
    let ghost tm = templates_model(protocol.templates@);
    let ghost total = render_streams(sm, tm, state@);
    let mut k: usize = 0;
    proof {
        assert(sm.skip(0) =~= sm);
        assert(server_handler.out() + render_streams(sm, tm, state@) =~= old(server_handler).out()
            + total);
    }
    while k < protocol.streams.len()
        invariant
            k <= protocol.streams.len(),
            server_handler.out() + render_streams(sm.skip(k as int), tm, state@) == old(
                server_handler,
            ).out() + total,
        decreases protocol.streams.len() - k,
    {
        let ghost rest = sm.skip(k as int);
        let ghost piece = render_stream(sm[k as int], tm, state@);
        proof {
            assert(rest[0] == sm[k as int]);
            assert(rest.skip(1) =~= sm.skip(k + 1));
        }
        let ghost before = server_handler.out();
        match &protocol.streams[k] {
            BuildTimeRenderingStream::Raw(raw_stream) => {
                server_handler.write(raw_stream.value.as_str());
            },
            BuildTimeRenderingStream::Attribute(attribute_stream) => {
                let resolved = find_value_by_dotted_path(attribute_stream.value.as_str(), &state);
                let mut text = String::new();
                match resolved {
                    Some(v) => {
                        push_value_text(&v, &mut text);
                    },
                    None => {
                        match &attribute_stream.default_value {
                            Some(d) => {
                                text.append(d.as_str());
                            },
                            None => {},
                        }
                    },
                }
                proof {
                    assert(text@ =~= resolved_text(
                        attribute_stream.value@,
                        crate::protocol::opt_string_view(attribute_stream.default_value),
                        state@,
                    ));
                }
                server_handler.write(attribute_stream.name.as_str());
                server_handler.write("=");
                server_handler.write(text.as_str());
                proof {
                    assert(server_handler.out() =~= before + piece);
                }
            },
            BuildTimeRenderingStream::Signal(signal_stream) => {
                let resolved = find_value_by_dotted_path(signal_stream.value.as_str(), &state);
                let mut text = String::new();
                match resolved {
                    Some(v) => {
                        push_value_text(&v, &mut text);
                    },
                    None => {
                        match &signal_stream.default_value {
                            Some(d) => {
                                text.append(d.as_str());
                            },
                            None => {},
                        }
                    },
                }
                server_handler.write(text.as_str());
                proof {
                    assert(server_handler.out() =~= before + piece);
                }
            },
            BuildTimeRenderingStream::When(when_stream) => {
                let visible = safe_evaluate_expression(when_stream.value.as_str(), &state);
                if !visible {
                    server_handler.write("style=\"display: none\"");
                }
                proof {
                    assert(server_handler.out() =~= before + piece);
                }
            },
            BuildTimeRenderingStream::Repeat(repeat_stream) => {
                let resolved = find_value_by_dotted_path(repeat_stream.value.as_str(), &state);
                match resolved {
                    Some(v) => {
                        match &v {
                            Value::Array(items) => {
                                match find_template(&protocol.templates, &repeat_stream.template) {
                                    Some(t) => {
                                        let ghost im = arr_model(items@);
                                        let ghost name = repeat_stream.template@;
                                        let ghost tmodel = t@;
                                        let mut j: usize = 0;
                                        proof {
                                            assert(im.skip(0) =~= im);
                                            assert(piece == render_items(im, name, tmodel));
                                        }
                                        while j < items.len()
                                            invariant
                                                j <= items.len(),
                                                server_handler.out() + render_items(
                                                    im.skip(j as int),
                                                    name,
                                                    tmodel,
                                                ) == before + piece,
                                            decreases items.len() - j,
                                        {
                                            proof {
                                                assert(im.skip(j as int)[0] == im[j as int]);
                                                assert(im.skip(j as int).skip(1) =~= im.skip(
                                                    j + 1,
                                                ));
                                            }
                                            let ghost item_start = server_handler.out();
                                            server_handler.write("<");
                                            server_handler.write(repeat_stream.template.as_str());
                                            server_handler.write(
                                                "><template shadowrootmode=\"open\">",
                                            );
                                            match &t.style {
                                                Some(st) => {
                                                    server_handler.write("<style>");
                                                    server_handler.write(st.as_str());
                                                    server_handler.write("</style>");
                                                },
                                                None => {},
                                            }
                                            server_handler.write(t.template.as_str());
                                            server_handler.write("</template>");
                                            let mut text = String::new();
                                            push_item_text(&items[j], &mut text);
                                            server_handler.write(text.as_str());
                                            server_handler.write("</");
                                            server_handler.write(repeat_stream.template.as_str());
                                            server_handler.write(">");
                                            proof {
                                                assert(server_handler.out() =~= item_start
                                                    + render_item(im[j as int], name, tmodel));
                                                assert(item_start + (render_item(
                                                    im[j as int],
                                                    name,
                                                    tmodel,
                                                ) + render_items(im.skip(j + 1), name, tmodel))
                                                    =~= (item_start + render_item(
                                                    im[j as int],
                                                    name,
                                                    tmodel,
                                                )) + render_items(im.skip(j + 1), name, tmodel));
                                            }
                                            j = j + 1;
                                        }
                                        proof {
                                            assert(im.skip(items@.len() as int).len() == 0);
                                            assert(server_handler.out() + render_items(
                                                im.skip(items@.len() as int),
                                                name,
                                                tmodel,
                                            ) =~= server_handler.out());
                                        }
                                    },
                                    None => {
                                        proof {
                                            assert(piece =~= Seq::<char>::empty());
                                        }
                                    },
                                }
                            },
                            _ => {
                                proof {
                                    assert(piece =~= Seq::<char>::empty());
                                }
                            },
                        }
                    },
                    None => {
                        proof {
                            assert(piece =~= Seq::<char>::empty());
                        }
                    },
                }
                proof {
                    assert(server_handler.out() =~= before + piece);
                }
            },
        }
        proof {
            assert(server_handler.out() =~= before + piece);
            assert((before + piece) + render_streams(sm.skip(k + 1), tm, state@) =~= before + (piece
                + render_streams(sm.skip(k + 1), tm, state@)));
        }
        k = k + 1;
    }
    proof {
        assert(sm.skip(protocol.streams@.len() as int).len() == 0);
        assert(server_handler.out() + render_streams(
            sm.skip(protocol.streams@.len() as int),
            tm,
            state@,
        ) =~= server_handler.out());
    }
    server_handler.end();
}

} // verus!
