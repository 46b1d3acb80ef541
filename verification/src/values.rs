//! The JSON-compatible value model and the dotted-path resolver.
//!
//! A [`Value`] is the runtime state tree: a tagged union of null, booleans,
//! numbers, strings, arrays and objects. Objects keep their fields as an
//! ordered list of key/value pairs; lookup returns the first pair whose key
//! matches. Numbers are 64-bit signed integers.
//!
//! [`find_value_by_dotted_path`] resolves a dot-separated path against a
//! value tree: every segment except an optional trailing `length` must index
//! into an object; a trailing `length` applied to an array yields its element
//! count; anything else is a miss, reported as `None` and never as an error.

use vstd::prelude::*;

verus! {

/// A JSON-like runtime value: the state tree, expression operands and
/// rendered output sources all use this one type.
pub enum Value {
    Null,
    Bool(bool),
    Number(i64),
    String(String),
    Array(Vec<Value>),
    Object(Vec<(String, Value)>),
}

/// The mathematical model of a [`Value`]: strings become sequences of
/// characters, arrays and objects become sequences of models.
pub enum Val {
    Null,
    Bool(bool),
    Num(int),
    Str(Seq<char>),
    Arr(Seq<Val>),
    Obj(Seq<(Seq<char>, Val)>),
}

impl View for Value {
    type V = Val;

    open spec fn view(&self) -> Val {
        val_model(*self)
    }
}

/// The model of one value.
pub open spec fn val_model(v: Value) -> Val
    decreases v,
{
    match v {
        Value::Null => Val::Null,
        Value::Bool(b) => Val::Bool(b),
        Value::Number(n) => Val::Num(n as int),
        Value::String(s) => Val::Str(s@),
        Value::Array(vs) => Val::Arr(arr_model(vs@)),
        Value::Object(ps) => Val::Obj(obj_model(ps@)),
    }
}

/// The models of an array's elements, in order.
pub open spec fn arr_model(vs: Seq<Value>) -> Seq<Val>
    decreases vs,
{
    if vs.len() == 0 {
        Seq::empty()
    } else {
        seq![val_model(vs[0])] + arr_model(vs.skip(1))
    }
}

/// The models of an object's fields, in order.
pub open spec fn obj_model(ps: Seq<(String, Value)>) -> Seq<(Seq<char>, Val)>
    decreases ps,
{
    if ps.len() == 0 {
        Seq::empty()
    } else {
        seq![(ps[0].0@, val_model(ps[0].1))] + obj_model(ps.skip(1))
    }
}

pub broadcast proof fn lemma_arr_model_len(vs: Seq<Value>)
    ensures
        #[trigger] arr_model(vs).len() == vs.len(),
    decreases vs.len(),
{
    if vs.len() > 0 {
        lemma_arr_model_len(vs.skip(1));
    }
}

pub broadcast proof fn lemma_arr_model_index(vs: Seq<Value>, i: int)
    requires
        0 <= i < vs.len(),
    ensures
        #[trigger] arr_model(vs)[i] == val_model(vs[i]),
    decreases vs.len(),
{
    lemma_arr_model_len(vs);
    if i > 0 {
        lemma_arr_model_index(vs.skip(1), i - 1);
    }
}

pub broadcast proof fn lemma_obj_model_len(ps: Seq<(String, Value)>)
    ensures
        #[trigger] obj_model(ps).len() == ps.len(),
    decreases ps.len(),
{
    if ps.len() > 0 {
        lemma_obj_model_len(ps.skip(1));
    }
}

pub broadcast proof fn lemma_obj_model_index(ps: Seq<(String, Value)>, i: int)
    requires
        0 <= i < ps.len(),
    ensures
        #[trigger] obj_model(ps)[i] == (ps[i].0@, val_model(ps[i].1)),
    decreases ps.len(),
{
    lemma_obj_model_len(ps);
    if i > 0 {
        lemma_obj_model_index(ps.skip(1), i - 1);
    }
}

pub broadcast group group_value_model {
    lemma_arr_model_len,
    lemma_arr_model_index,
    lemma_obj_model_len,
    lemma_obj_model_index,
}

/// A machine-limit bound on a value tree: every array in it is short enough
/// for its length to be reported as a [`Value::Number`]. Any tree that fits
/// in memory satisfies this; the verifier needs it stated.
pub open spec fn val_wf(v: Val) -> bool
    decreases v,
{
    match v {
        Val::Arr(items) => items.len() <= i64::MAX && (forall|i: int|
            0 <= i < items.len() ==> val_wf(#[trigger] items[i])),
        Val::Obj(fields) => forall|i: int|
            0 <= i < fields.len() ==> val_wf(#[trigger] fields[i].1),
        _ => true,
    }
}

/// First-match lookup of `key` among an object's fields.
pub open spec fn obj_lookup(fields: Seq<(Seq<char>, Val)>, key: Seq<char>) -> Option<Val>
    decreases fields.len(),
{
    if fields.len() == 0 {
        None
    } else if fields[0].0 == key {
        Some(fields[0].1)
    } else {
        obj_lookup(fields.skip(1), key)
    }
}

/// Splitting a path on `.`, accumulating the segment read so far.
/// The empty path yields one empty segment, as `split` does.
pub open spec fn split_dots_acc(s: Seq<char>, cur: Seq<char>) -> Seq<Seq<char>>
    decreases s.len(),
{
    if s.len() == 0 {
        seq![cur]
    } else if s[0] == '.' {
        seq![cur] + split_dots_acc(s.skip(1), Seq::empty())
    } else {
        split_dots_acc(s.skip(1), cur.push(s[0]))
    }
}

/// The segments of a dot-separated path.
pub open spec fn split_dots(s: Seq<char>) -> Seq<Seq<char>> {
    split_dots_acc(s, Seq::empty())
}

/// Resolution of a segment list against a value: objects are indexed by key;
/// an array answers only a final `length` segment, with its element count.
pub open spec fn resolve_segments(segs: Seq<Seq<char>>, v: Val) -> Option<Val>
    decreases segs.len(),
{
    if segs.len() == 0 {
        Some(v)
    } else {
        match v {
            Val::Obj(fields) => match obj_lookup(fields, segs[0]) {
                Some(next) => resolve_segments(segs.skip(1), next),
                None => None,
            },
            Val::Arr(items) => if segs.len() == 1 && segs[0] == "length"@ {
                Some(Val::Num(items.len() as int))
            } else {
                None
            },
            _ => None,
        }
    }
}

/// What resolving a dotted path against a value tree yields.
pub open spec fn spec_resolve(path: Seq<char>, root: Val) -> Option<Val> {
    resolve_segments(split_dots(path), root)
}

/// The JSON-kind-dependent boolean coercion: booleans stand for themselves,
/// numbers are truthy when nonzero, strings, arrays and objects when
/// non-empty, and null is always falsy.
pub open spec fn spec_truthy(v: Val) -> bool {
    match v {
        Val::Null => false,
        Val::Bool(b) => b,
        Val::Num(n) => n != 0,
        Val::Str(s) => s.len() > 0,
        Val::Arr(items) => items.len() > 0,
        Val::Obj(fields) => fields.len() > 0,
    }
}

impl Value {
    /// A structurally equal copy of this value.
    #[verifier::loop_isolation(false)]
    pub fn deep_clone(&self) -> (r: Value)
        ensures
            r@ == self@,
        decreases self,
    {
        broadcast use group_value_model;

        match self {
            Value::Null => Value::Null,
            Value::Bool(b) => Value::Bool(*b),
            Value::Number(n) => Value::Number(*n),
            Value::String(s) => Value::String(s.clone()),
            Value::Array(vs) => {
                let mut out: Vec<Value> = Vec::new();
                let mut i: usize = 0;
                while i < vs.len()
                    invariant
                        i <= vs.len(),
                        out@.len() == i,
                        forall|j: int| 0 <= j < i ==> out@[j]@ == vs@[j]@,
                    decreases vs.len() - i,
                {
                    proof {
                        assert(decreases_to!(*self => *vs));
                        assert(decreases_to!(*vs => vs@));
                        assert(decreases_to!(vs@ => vs@[i as int]));
                    }
                    out.push(vs[i].deep_clone());
                    i = i + 1;
                }
                let r = Value::Array(out);
                proof {
                    assert forall|j: int| 0 <= j < out@.len() implies arr_model(out@)[j]
                        == arr_model(vs@)[j] by {
                        assert(arr_model(out@)[j] == val_model(out@[j]));
                        assert(arr_model(vs@)[j] == val_model(vs@[j]));
                    }
                    assert(arr_model(out@) =~= arr_model(vs@));
                }
                r
            },
            Value::Object(ps) => {
                let mut out: Vec<(String, Value)> = Vec::new();
                let mut i: usize = 0;
                while i < ps.len()
                    invariant
                        i <= ps.len(),
                        out@.len() == i,
                        forall|j: int| 0 <= j < i ==> out@[j].0@ == ps@[j].0@ && out@[j].1@
                            == ps@[j].1@,
                    decreases ps.len() - i,
                {
                    proof {
                        assert(decreases_to!(*self => *ps));
                        assert(decreases_to!(*ps => ps@));
                        assert(decreases_to!(ps@ => ps@[i as int]));
                        assert(decreases_to!(ps@[i as int] => ps@[i as int].1));
                    }
                    let key = ps[i].0.clone();
                    let v = ps[i].1.deep_clone();
                    out.push((key, v));
                    i = i + 1;
                }
                let r = Value::Object(out);
                proof {
                    assert forall|j: int| 0 <= j < out@.len() implies obj_model(out@)[j]
                        == obj_model(ps@)[j] by {
                        assert(obj_model(out@)[j] == (out@[j].0@, val_model(out@[j].1)));
                        assert(obj_model(ps@)[j] == (ps@[j].0@, val_model(ps@[j].1)));
                    }
                    assert(obj_model(out@) =~= obj_model(ps@));
                }
                r
            },
        }
    }

    /// Whether this value coerces to `true` under truthiness.
    pub fn truthy(&self) -> (r: bool)
        ensures
            r == spec_truthy(self@),
    {
        match self {
            Value::Null => false,
            Value::Bool(b) => *b,
            Value::Number(n) => *n != 0,
            Value::String(s) => s.as_str().unicode_len() > 0,
            Value::Array(items) => items.len() > 0,
            Value::Object(fields) => fields.len() > 0,
        }
    }
}

/// Structural equality of two values: the same JSON kind and equal parts,
/// arrays and objects compared element by element in order.
#[verifier::loop_isolation(false)]
pub fn value_eq(a: &Value, b: &Value) -> (r: bool)
    ensures
        r == (a@ == b@),
    decreases a,
{
    broadcast use group_value_model;

    match (a, b) {
        (Value::Null, Value::Null) => true,
        (Value::Bool(x), Value::Bool(y)) => x == y,
        (Value::Number(x), Value::Number(y)) => x == y,
        (Value::String(x), Value::String(y)) => x.eq(y),
        (Value::Array(xs), Value::Array(ys)) => {
            proof {
                assert(a@ == Val::Arr(arr_model(xs@)));
                assert(b@ == Val::Arr(arr_model(ys@)));
            }
            if xs.len() != ys.len() {
                proof {
                    assert(arr_model(xs@).len() != arr_model(ys@).len());
                }
                return false;
            }
            let mut i: usize = 0;
            while i < xs.len()
                invariant
                    i <= xs.len(),
                    xs@.len() == ys@.len(),
                    a@ == Val::Arr(arr_model(xs@)),
                    b@ == Val::Arr(arr_model(ys@)),
                    forall|j: int| 0 <= j < i ==> xs@[j]@ == ys@[j]@,
                decreases xs.len() - i,
            {
                proof {
                    assert(decreases_to!(*a => *xs));
                    assert(decreases_to!(*xs => xs@));
                    assert(decreases_to!(xs@ => xs@[i as int]));
                }
                if !value_eq(&xs[i], &ys[i]) {
                    proof {
                        assert(arr_model(xs@)[i as int] != arr_model(ys@)[i as int]);
                    }
                    return false;
                }
                i = i + 1;
            }
            proof {
                assert(arr_model(xs@) =~= arr_model(ys@));
            }
            true
        },
        (Value::Object(xs), Value::Object(ys)) => {
            proof {
                assert(a@ == Val::Obj(obj_model(xs@)));
                assert(b@ == Val::Obj(obj_model(ys@)));
            }
            if xs.len() != ys.len() {
                proof {
                    assert(obj_model(xs@).len() != obj_model(ys@).len());
                }
                return false;
            }
            let mut i: usize = 0;
            while i < xs.len()
                invariant
                    i <= xs.len(),
                    xs@.len() == ys@.len(),
                    a@ == Val::Obj(obj_model(xs@)),
                    b@ == Val::Obj(obj_model(ys@)),
                    forall|j: int| 0 <= j < i ==> xs@[j].0@ == ys@[j].0@ && xs@[j].1@ == ys@[j].1@,
                decreases xs.len() - i,
            {
                proof {
                    assert(decreases_to!(*a => *xs));
                    assert(decreases_to!(*xs => xs@));
                    assert(decreases_to!(xs@ => xs@[i as int]));
                    assert(decreases_to!(xs@[i as int] => xs@[i as int].1));
                }
                let keys_equal = xs[i].0.eq(&ys[i].0);
                if !keys_equal || !value_eq(&xs[i].1, &ys[i].1) {
                    proof {
                        assert(obj_model(xs@)[i as int] != obj_model(ys@)[i as int]);
                    }
                    return false;
                }
                i = i + 1;
            }
            proof {
                assert(obj_model(xs@) =~= obj_model(ys@));
            }
            true
        },
        _ => {
            proof {
                assert(a@ != b@);
            }
            false
        },
    }
}

/// The segments of a dotted path, in order, split on `.` alone: dots are
/// separators, everything else belongs to a segment.
#[verifier::loop_isolation(false)]
pub fn split_dotted_path(path: &str) -> (segs: Vec<String>)
    ensures
        segs@.map_values(|s: String| s@) == split_dots(path@),
{
    let n = path.unicode_len();
    let mut out: Vec<String> = Vec::new();
    let mut seg_start: usize = 0;
    let mut i: usize = 0;
    proof {
        assert(path@.skip(0) =~= path@);
        assert(path@.subrange(0, 0) =~= Seq::<char>::empty());
        assert(out@.map_values(|s: String| s@) =~= Seq::<Seq<char>>::empty());
        assert(Seq::<Seq<char>>::empty() + split_dots(path@) =~= split_dots(path@));
    }
    while i < n
        invariant
            seg_start <= i <= n,
            n == path@.len(),
            out@.map_values(|s: String| s@) + split_dots_acc(
                path@.skip(i as int),
                path@.subrange(seg_start as int, i as int),
            ) == split_dots(path@),
        decreases n - i,
    {
        let c = path.get_char(i);
        if c == '.' {
            let seg = path.substring_char(seg_start, i).to_owned();
            proof {
                assert(path@.skip(i as int)[0] == '.');
                assert(path@.skip(i as int).skip(1) =~= path@.skip(i + 1));
                assert((out@ + seq![seg]).map_values(|s: String| s@) =~= out@.map_values(
                    |s: String| s@,
                ) + seq![seg@]);
                assert(path@.subrange(i + 1, i + 1) =~= Seq::<char>::empty());
                assert((out@.map_values(|s: String| s@) + seq![seg@]) + split_dots_acc(
                    path@.skip(i + 1),
                    Seq::empty(),
                ) =~= out@.map_values(|s: String| s@) + (seq![seg@] + split_dots_acc(
                    path@.skip(i + 1),
                    Seq::empty(),
                )));
            }
            out.push(seg);
            seg_start = i + 1;
        } else {
            proof {
                assert(path@.skip(i as int)[0] == c);
                assert(path@.skip(i as int).skip(1) =~= path@.skip(i + 1));
                assert(path@.subrange(seg_start as int, i as int).push(c) =~= path@.subrange(
                    seg_start as int,
                    i + 1,
                ));
            }
        }
        i = i + 1;
    }
    let seg = path.substring_char(seg_start, n).to_owned();
    proof {
        assert(path@.skip(n as int).len() == 0);
        assert((out@ + seq![seg]).map_values(|s: String| s@) =~= out@.map_values(|s: String| s@)
            + seq![seg@]);
        assert(out@.map_values(|s: String| s@) + seq![seg@] =~= out@.map_values(|s: String| s@)
            + split_dots_acc(path@.skip(n as int), path@.subrange(seg_start as int, n as int)));
    }
    out.push(seg);
    out
}

/// Finds a value in a value tree by a dotted path. Absence is the only
/// failure signal: a missing key, a non-object along the way, or a `length`
/// segment applied to anything but an array all yield `None`.
#[verifier::loop_isolation(false)]
pub fn find_value_by_dotted_path(path: &str, state: &Value) -> (r: Option<Value>)
    requires
        val_wf(state@),
    ensures
        match r {
            Some(v) => spec_resolve(path@, state@) == Some(v@),
            None => spec_resolve(path@, state@) is None,
        },
{
    broadcast use group_value_model;

    let segs = split_dotted_path(path);
    let ghost segs_m = segs@.map_values(|s: String| s@);
    let length_key = String::from_str("length");
    let mut cur: &Value = state;
    let mut k: usize = 0;
    proof {
        assert(segs_m.skip(0) =~= segs_m);
    }
    while k < segs.len()
        invariant
            k <= segs.len(),
            val_wf(cur@),
            length_key@ == "length"@,
            segs_m == segs@.map_values(|s: String| s@),
            segs_m.len() == segs@.len(),
            resolve_segments(segs_m.skip(k as int), cur@) == spec_resolve(path@, state@),
        decreases segs.len() - k,
    {
        let ghost rest = segs_m.skip(k as int);
        proof {
            assert(rest[0] == segs@[k as int]@);
            assert(rest.skip(1) =~= segs_m.skip(k + 1));
        }
        match cur {
            Value::Object(fields) => {
                let ghost fm = obj_model(fields@);
                let mut j: usize = 0;
                proof {
                    assert(fm.skip(0) =~= fm);
                }
                let mut next: Option<&Value> = None;
                while j < fields.len()
                    invariant
                        j <= fields.len(),
                        fm == obj_model(fields@),
                        fm.len() == fields@.len(),
                        next is None,
                        segs_m == segs@.map_values(|s: String| s@),
                        k < segs@.len(),
                        obj_lookup(fm.skip(j as int), segs@[k as int]@) == obj_lookup(
                            fm,
                            segs@[k as int]@,
                        ),
                    decreases fields.len() - j,
                {
                    proof {
                        assert(fm.skip(j as int)[0] == fm[j as int]);
                        assert(fm.skip(j as int).skip(1) =~= fm.skip(j + 1));
                    }
                    if fields[j].0.eq(&segs[k]) {
                        next = Some(&fields[j].1);
                        break ;
                    }
                    j = j + 1;
                }
                match next {
                    Some(v) => {
                        proof {
                            assert(obj_lookup(fm, segs@[k as int]@) == Some(v@));
                            assert(forall|t: int|
                                0 <= t < fm.len() ==> val_wf(#[trigger] fm[t].1));
                            lemma_obj_lookup_wf(fm, segs@[k as int]@);
                        }
                        cur = v;
                        k = k + 1;
                    },
                    None => {
                        proof {
                            assert(fm.skip(fields@.len() as int).len() == 0);
                        }
                        return None;
                    },
                }
            },
            Value::Array(items) => {
                if k == segs.len() - 1 && segs[k].eq(&length_key) {
                    proof {
                        assert(rest.len() == 1);
                        assert(arr_model(items@).len() == items@.len());
                        assert(cur@->Arr_0.len() == items@.len());
                    }
                    return Some(Value::Number(items.len() as i64));
                } else {
                    return None;
                }
            },
            _ => {
                return None;
            },
        }
    }
    proof {
        assert(segs_m.skip(k as int).len() == 0);
    }
    Some(cur.deep_clone())
}

/// Why resolution can miss at one step of the walk: an object lacking the
/// segment as a key, an array asked anything but a final `length`, or a
/// scalar asked anything at all.
pub open spec fn step_misses(seg: Seq<char>, is_last: bool, v: Val) -> bool {
    match v {
        Val::Obj(fields) => obj_lookup(fields, seg) is None,
        Val::Arr(_) => !(is_last && seg == "length"@),
        _ => true,
    }
}

/// The walk over `segs` from `root` reaches a value after `k` steps and the
/// next segment fails there.
pub open spec fn misses_at(segs: Seq<Seq<char>>, root: Val, k: int) -> bool {
    &&& 0 <= k < segs.len()
    &&& resolve_segments(segs.take(k), root) matches Some(w) && step_misses(
        segs[k],
        k == segs.len() - 1,
        w,
    )
}

proof fn lemma_misses_at_none(segs: Seq<Seq<char>>, root: Val, k: int)
    requires
        misses_at(segs, root, k),
    ensures
        resolve_segments(segs, root) is None,
    decreases k,
{
    assert(segs.take(k).len() == k);
    if k == 0 {
    } else {
        assert(segs.take(k)[0] == segs[0]);
        match root {
            Val::Obj(fields) => {
                match obj_lookup(fields, segs[0]) {
                    Some(next) => {
                        assert(segs.take(k).skip(1) =~= segs.skip(1).take(k - 1));
                        assert(segs.skip(1)[k - 1] == segs[k]);
                        assert(segs.skip(1).len() == segs.len() - 1);
                        assert(misses_at(segs.skip(1), next, k - 1));
                        lemma_misses_at_none(segs.skip(1), next, k - 1);
                    },
                    None => {},
                }
            },
            Val::Arr(items) => {
                assert(k == 1 && segs[0] == "length"@);
                assert(segs.len() >= 2);
            },
            _ => {},
        }
    }
}

proof fn lemma_none_misses_at(segs: Seq<Seq<char>>, root: Val)
    requires
        resolve_segments(segs, root) is None,
    ensures
        exists|k: int| misses_at(segs, root, k),
    decreases segs.len(),
{
    assert(segs.len() > 0);
    assert(segs.take(0).len() == 0);
    match root {
        Val::Obj(fields) => match obj_lookup(fields, segs[0]) {
            Some(next) => {
                lemma_none_misses_at(segs.skip(1), next);
                let k1 = choose|k1: int| misses_at(segs.skip(1), next, k1);
                assert(segs.take(k1 + 1).len() == k1 + 1);
                assert(segs.take(k1 + 1)[0] == segs[0]);
                assert(segs.take(k1 + 1).skip(1) =~= segs.skip(1).take(k1));
                assert(segs.skip(1)[k1] == segs[k1 + 1]);
                assert(segs.skip(1).len() == segs.len() - 1);
                assert(misses_at(segs, root, k1 + 1));
            },
            None => {
                assert(misses_at(segs, root, 0));
            },
        },
        Val::Arr(items) => {
            assert(misses_at(segs, root, 0));
        },
        _ => {
            assert(misses_at(segs, root, 0));
        },
    }
}

/// Resolution yields `None` exactly when some step of the walk misses: a
/// prefix of the path reaches a value at which the next segment addresses a
/// non-object (with the one exception of a trailing `length` on an array)
/// or a key absent from an object.
pub proof fn lemma_resolve_none_iff(path: Seq<char>, root: Val)
    ensures
        spec_resolve(path, root) is None <==> exists|k: int|
            misses_at(split_dots(path), root, k),
{
    let segs = split_dots(path);
    if spec_resolve(path, root) is None {
        lemma_none_misses_at(segs, root);
    } else {
        if exists|k: int| misses_at(segs, root, k) {
            let k = choose|k: int| misses_at(segs, root, k);
            lemma_misses_at_none(segs, root, k);
        }
    }
}

/// Looking up a key among well-formed fields yields a well-formed value.
proof fn lemma_obj_lookup_wf(fields: Seq<(Seq<char>, Val)>, key: Seq<char>)
    requires
        forall|i: int| 0 <= i < fields.len() ==> val_wf(#[trigger] fields[i].1),
        obj_lookup(fields, key) is Some,
    ensures
        val_wf(obj_lookup(fields, key)->Some_0),
    decreases fields.len(),
{
    if fields.len() > 0 {
        if fields[0].0 == key {
        } else {
            assert(forall|i: int|
                0 <= i < fields.skip(1).len() ==> val_wf(#[trigger] fields.skip(1)[i].1));
            lemma_obj_lookup_wf(fields.skip(1), key);
        }
    }
}

} // verus!
