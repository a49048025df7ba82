//! Tool schemas written as JSON, so that a constraint is built from the same
//! declaration that the prompt carries.
use vstd::prelude::*;
use crate::grammar::lang::{Param, ParamType, Tool};
use crate::json::{json_of_text, read_text, Json, Tree};
use crate::text::same_text;

verus! {

/// Why a schema yields no tools.
pub enum ToolspecError {
    /// not JSON; the message says why
    NotJson(String),
    /// JSON that declares no tools
    Flawed(Flaw),
}

/// What is wrong with a schema that is JSON.
#[derive(Clone, Copy, Debug, PartialEq, Eq, Structural)]
pub enum Flaw {
    /// not a list of tools
    NotAList,
    /// a tool without a name
    ToolName,
    /// a tool without a list of parameters
    ToolParams,
    /// a parameter without a name
    ParamName,
    /// an allowed value that is not a text
    EnumValue,
}

// ---------------------------------------------------------------- what a schema says
/// The elements of a list.
pub open spec fn list(t: Tree) -> Option<Seq<Tree>> {
    match t {
        Tree::Arr(v) => Some(v),
        _ => None,
    }
}

/// The values that a parameter allows, if its type is a closed set.
pub open spec fn allowed_values(p: Tree) -> Option<Seq<Tree>> {
    let ty = p.at("type"@).text();
    if ty == Some("INTEGER"@) || ty == Some("NUMBER"@) || ty == Some("BOOLEAN"@) {
        None
    } else {
        list(p.at("enum"@))
    }
}

/// Whether all of them are texts.
pub open spec fn all_texts(v: Seq<Tree>) -> bool {
    forall|i: int| 0 <= i < v.len() ==> (#[trigger] v[i]).text() is Some
}

/// What is wrong with a parameter.
pub open spec fn param_flaw(p: Tree) -> Option<Flaw> {
    if p.at("name"@).text() is None {
        Some(Flaw::ParamName)
    } else if allowed_values(p) matches Some(v) && !all_texts(v) {
        Some(Flaw::EnumValue)
    } else {
        None
    }
}

/// What is wrong with the first of several parameters that has a flaw.
pub open spec fn params_flaw(ps: Seq<Tree>) -> Option<Flaw>
    decreases ps.len(),
{
    if ps.len() == 0 {
        None
    } else {
        match params_flaw(ps.drop_last()) {
            Some(f) => Some(f),
            None => param_flaw(ps.last()),
        }
    }
}

/// What is wrong with a tool.
pub open spec fn tool_flaw(t: Tree) -> Option<Flaw> {
    if t.at("name"@).text() is None {
        Some(Flaw::ToolName)
    } else {
        match list(t.at("params"@)) {
            Some(ps) => params_flaw(ps),
            None => Some(Flaw::ToolParams),
        }
    }
}

/// What is wrong with the first of several tools that has a flaw.
pub open spec fn tools_flaw(ts: Seq<Tree>) -> Option<Flaw>
    decreases ts.len(),
{
    if ts.len() == 0 {
        None
    } else {
        match tools_flaw(ts.drop_last()) {
            Some(f) => Some(f),
            None => tool_flaw(ts.last()),
        }
    }
}

/// What is wrong with a schema.
pub open spec fn schema_flaw(t: Tree) -> Option<Flaw> {
    match list(t) {
        Some(ts) => tools_flaw(ts),
        None => Some(Flaw::NotAList),
    }
}

/// Whether a type is the one that a parameter declares: a text where it
/// declares none.
pub open spec fn type_right(p: Tree, ty: ParamType) -> bool {
    let declared = p.at("type"@).text();
    if declared == Some("INTEGER"@) {
        ty is Int
    } else if declared == Some("NUMBER"@) {
        ty is Num
    } else if declared == Some("BOOLEAN"@) {
        ty is Bool
    } else {
        match allowed_values(p) {
            Some(v) => ty matches ParamType::Enum(e) && e@.len() == v.len() && forall|i: int|
                0 <= i < v.len() ==> (#[trigger] v[i]).text() == Some(e@[i]@),
            None => ty is Str,
        }
    }
}

/// Whether a parameter is what a schema declares: required where it does not say.
pub open spec fn param_right(p: Tree, r: Param) -> bool {
    &&& p.at("name"@).text() == Some(r.name@)
    &&& type_right(p, r.ty)
    &&& r.required == match p.at("required"@).truth() {
        Some(b) => b,
        None => true,
    }
}

/// Whether a tool is what a schema declares.
pub open spec fn tool_right(t: Tree, r: Tool) -> bool {
    &&& t.at("name"@).text() == Some(r.name@)
    &&& list(t.at("params"@)) matches Some(ps) && ps.len() == r.params@.len() && forall|i: int|
        0 <= i < ps.len() ==> param_right(#[trigger] ps[i], r.params@[i])
}

/// Whether tools are what a schema declares.
pub open spec fn tools_right(t: Tree, r: Seq<Tool>) -> bool {
    list(t) matches Some(ts) && ts.len() == r.len() && forall|i: int|
        0 <= i < ts.len() ==> tool_right(#[trigger] ts[i], r[i])
}

// ---------------------------------------------------------------- reading one
fn text_at(j: &Json, key: &str) -> (r: Option<String>)
    ensures
        match r {
            Some(s) => j.tree().at(key@).text() == Some(s@),
            None => j.tree().at(key@).text() is None,
        },
{
    match j.get(key) {
        Some(v) => match v.as_str() {
            Some(s) => Some(s.to_owned()),
            None => None,
        },
        None => None,
    }
}

fn list_at<'a>(j: &'a Json, key: &str) -> (r: Option<&'a Vec<Json>>)
    ensures
        match r {
            Some(v) => list(j.tree().at(key@)) matches Some(ts) && ts.len() == v@.len() && forall|
                i: int,
            |
                0 <= i < ts.len() ==> #[trigger] ts[i] == v@[i].tree(),
            None => list(j.tree().at(key@)) is None,
        },
{
    match j.get(key) {
        Some(v) => match v {
            Json::Arr(a) => Some(a),
            _ => None,
        },
        None => None,
    }
}

fn texts(v: &Vec<Json>) -> (r: Option<Vec<String>>)
    ensures
        match r {
            Some(e) => e@.len() == v@.len() && forall|i: int|
                0 <= i < v@.len() ==> (#[trigger] v@[i]).tree().text() == Some(e@[i]@),
            None => exists|i: int|
                0 <= i < v@.len() && (#[trigger] v@[i]).tree().text() is None,
        },
{
    let mut r: Vec<String> = Vec::new();
    let mut i: usize = 0;
    while i < v.len()
        invariant
            i <= v@.len(),
            r@.len() == i,
            forall|k: int| 0 <= k < i ==> (#[trigger] v@[k]).tree().text() == Some(r@[k]@),
        decreases v@.len() - i,
    {
        match v[i].as_str() {
            Some(s) => r.push(s.to_owned()),
            None => {
                assert(v@[i as int].tree().text() is None);
                return None;
            },
        }
        i += 1;
    }
    Some(r)
}

fn read_type(p: &Json) -> (r: Result<ParamType, Flaw>)
    ensures
        match r {
            Ok(ty) => type_right(p.tree(), ty) && (allowed_values(p.tree()) matches Some(v)
                ==> all_texts(v)),
            Err(f) => f == Flaw::EnumValue && (allowed_values(p.tree()) matches Some(v)
                && !all_texts(v)),
        },
{
    proof {
        reveal_strlit("INTEGER");
        reveal_strlit("NUMBER");
        reveal_strlit("BOOLEAN");
        assert("INTEGER"@[0] == 'I');
        assert("NUMBER"@[0] == 'N');
        assert("BOOLEAN"@[0] == 'B');
    }
    if let Some(ty) = text_at(p, "type") {
        if same_text(ty.as_str(), "INTEGER") {
            return Ok(ParamType::Int);
        }
        if same_text(ty.as_str(), "NUMBER") {
            return Ok(ParamType::Num);
        }
        if same_text(ty.as_str(), "BOOLEAN") {
            return Ok(ParamType::Bool);
        }
    }
    match list_at(p, "enum") {
        Some(v) => {
            let ghost ts = list(p.tree().at("enum"@))->0;
            match texts(v) {
                Some(e) => {
                    proof {
                        assert forall|i: int| 0 <= i < ts.len() implies (#[trigger] ts[i]).text()
                            == Some(e@[i]@) by {
                            assert(v@[i].tree().text() == Some(e@[i]@));
                        }
                    }
                    Ok(ParamType::Enum(e))
                },
                None => {
                    proof {
                        let i = choose|i: int|
                            0 <= i < v@.len() && (#[trigger] v@[i]).tree().text() is None;
                        assert(ts[i].text() is None);
                    }
                    Err(Flaw::EnumValue)
                },
            }
        },
        None => Ok(ParamType::Str),
    }
}

fn read_param(p: &Json) -> (r: Result<Param, Flaw>)
    ensures
        match r {
            Ok(q) => param_flaw(p.tree()) is None && param_right(p.tree(), q),
            Err(f) => param_flaw(p.tree()) == Some(f),
        },
{
    let name = match text_at(p, "name") {
        Some(n) => n,
        None => return Err(Flaw::ParamName),
    };
    let ty = match read_type(p) {
        Ok(t) => t,
        Err(f) => return Err(f),
    };
    let required = match p.get("required") {
        Some(v) => match v.as_bool() {
            Some(b) => b,
            None => true,
        },
        None => true,
    };
    Ok(Param { name, ty, required })
}

proof fn lemma_params_flaw_stays(ps: Seq<Tree>, n: int)
    requires
        0 <= n <= ps.len(),
        params_flaw(ps.take(n)) is Some,
    ensures
        params_flaw(ps) == params_flaw(ps.take(n)),
    decreases ps.len(),
{
    if n < ps.len() {
        assert(ps.drop_last().take(n) =~= ps.take(n));
        lemma_params_flaw_stays(ps.drop_last(), n);
    } else {
        assert(ps.take(n) =~= ps);
    }
}

fn read_tool(t: &Json) -> (r: Result<Tool, Flaw>)
    ensures
        match r {
            Ok(q) => tool_flaw(t.tree()) is None && tool_right(t.tree(), q),
            Err(f) => tool_flaw(t.tree()) == Some(f),
        },
{
    let name = match text_at(t, "name") {
        Some(n) => n,
        None => return Err(Flaw::ToolName),
    };
    let ps = match list_at(t, "params") {
        Some(ps) => ps,
        None => return Err(Flaw::ToolParams),
    };
    let ghost ts = list(t.tree().at("params"@))->0;
    let mut params: Vec<Param> = Vec::new();
    let mut i: usize = 0;
    while i < ps.len()
        invariant
            i <= ps@.len(),
            t.tree().at("name"@).text() == Some(name@),
            list(t.tree().at("params"@)) == Some(ts),
            ts.len() == ps@.len(),
            forall|k: int| 0 <= k < ts.len() ==> #[trigger] ts[k] == ps@[k].tree(),
            params@.len() == i,
            params_flaw(ts.take(i as int)) is None,
            forall|k: int| 0 <= k < i ==> param_right(#[trigger] ts[k], params@[k]),
        decreases ps@.len() - i,
    {
        proof {
            assert(ts[i as int] == ps@[i as int].tree());
            assert(ts.take(i + 1).drop_last() =~= ts.take(i as int));
            assert(ts.take(i + 1).last() == ts[i as int]);
        }
        match read_param(&ps[i]) {
            Ok(p) => params.push(p),
            Err(f) => {
                proof {
                    lemma_params_flaw_stays(ts, i + 1);
                }
                return Err(f);
            },
        }
        i += 1;
    }
    assert(ts.take(i as int) =~= ts);
    Ok(Tool { name, params })
}

proof fn lemma_tools_flaw_stays(ts: Seq<Tree>, n: int)
    requires
        0 <= n <= ts.len(),
        tools_flaw(ts.take(n)) is Some,
    ensures
        tools_flaw(ts) == tools_flaw(ts.take(n)),
    decreases ts.len(),
{
    if n < ts.len() {
        assert(ts.drop_last().take(n) =~= ts.take(n));
        lemma_tools_flaw_stays(ts.drop_last(), n);
    } else {
        assert(ts.take(n) =~= ts);
    }
}

/// The tools that a schema declares.
pub fn read_tools(j: &Json) -> (r: Result<Vec<Tool>, Flaw>)
    ensures
        match r {
            Ok(v) => schema_flaw(j.tree()) is None && tools_right(j.tree(), v@),
            Err(f) => schema_flaw(j.tree()) == Some(f),
        },
{
    let list_of = match j {
        Json::Arr(a) => a,
        _ => return Err(Flaw::NotAList),
    };
    let ghost ts = list(j.tree())->0;
    let mut tools: Vec<Tool> = Vec::new();
    let mut i: usize = 0;
    while i < list_of.len()
        invariant
            i <= list_of@.len(),
            list(j.tree()) == Some(ts),
            ts.len() == list_of@.len(),
            forall|k: int| 0 <= k < ts.len() ==> #[trigger] ts[k] == list_of@[k].tree(),
            tools@.len() == i,
            tools_flaw(ts.take(i as int)) is None,
            forall|k: int| 0 <= k < i ==> tool_right(#[trigger] ts[k], tools@[k]),
        decreases list_of@.len() - i,
    {
        proof {
            assert(ts[i as int] == list_of@[i as int].tree());
            assert(ts.take(i + 1).drop_last() =~= ts.take(i as int));
            assert(ts.take(i + 1).last() == ts[i as int]);
        }
        match read_tool(&list_of[i]) {
            Ok(t) => tools.push(t),
            Err(f) => {
                proof {
                    lemma_tools_flaw_stays(ts, i + 1);
                }
                return Err(f);
            },
        }
        i += 1;
    }
    assert(ts.take(i as int) =~= ts);
    Ok(tools)
}

/// Reads the tools that a schema declares.
pub fn load_toolspec(raw: &str) -> (r: Result<Vec<Tool>, ToolspecError>)
    ensures
        match json_of_text(raw@) {
            Err(m) => r matches Err(ToolspecError::NotJson(e)) && e@ == m,
            Ok(t) => match schema_flaw(t) {
                None => r matches Ok(v) && tools_right(t, v@),
                Some(f) => r matches Err(ToolspecError::Flawed(g)) && g == f,
            },
        },
{
    match read_text(raw) {
        Err(e) => Err(ToolspecError::NotJson(e)),
        Ok(j) => match read_tools(&j) {
            Ok(v) => Ok(v),
            Err(f) => Err(ToolspecError::Flawed(f)),
        },
    }
}

// ---------------------------------------------------------------- what is declared
/// A parameter is what its declaration says: its name, its type, the values of a closed
/// set in their order, and required unless it says `false`.
pub proof fn law_parameters_are_as_declared(p: Tree, r: Param)
    requires
        param_right(p, r),
    ensures
        p.field("name"@) == Some(Tree::Str(r.name@)),
        p.field("type"@) == Some(Tree::Str("INTEGER"@)) ==> r.ty is Int,
        p.field("type"@) == Some(Tree::Str("NUMBER"@)) ==> r.ty is Num,
        p.field("type"@) == Some(Tree::Str("BOOLEAN"@)) ==> r.ty is Bool,
        p.field("type"@) == Some(Tree::Str("STRING"@)) || p.field("type"@) is None ==> {
            &&& p.field("enum"@) is None ==> r.ty is Str
            &&& p.field("enum"@) matches Some(Tree::Arr(v)) ==> (r.ty matches ParamType::Enum(e)
                && e@.len() == v.len() && forall|i: int|
                0 <= i < v.len() ==> Tree::Str((#[trigger] e@[i])@) == v[i])
        },
        r.required <==> p.field("required"@) != Some(Tree::Bool(false)),
{
    reveal_strlit("INTEGER");
    reveal_strlit("NUMBER");
    reveal_strlit("BOOLEAN");
    reveal_strlit("STRING");
    assert("INTEGER"@[0] == 'I' && "NUMBER"@[0] == 'N' && "BOOLEAN"@[0] == 'B' && "STRING"@[0]
        == 'S');
    if let ParamType::Enum(e) = r.ty {
        if let Some(Tree::Arr(v)) = p.field("enum"@) {
            assert(allowed_values(p) == Some(v));
            assert forall|i: int| 0 <= i < v.len() implies Tree::Str((#[trigger] e@[i])@) == v[i] by {
                assert(v[i].text() == Some(e@[i]@));
            }
        }
    }
}

/// Whether a parameter is declared soundly: it has a name, and the values of a closed set
/// are texts.
pub open spec fn sound_param(p: Tree) -> bool {
    &&& p.field("name"@) matches Some(Tree::Str(_))
    &&& p.field("type"@) != Some(Tree::Str("INTEGER"@)) && p.field("type"@) != Some(
        Tree::Str("NUMBER"@),
    ) && p.field("type"@) != Some(Tree::Str("BOOLEAN"@)) ==> (p.field("enum"@) matches Some(
        Tree::Arr(v),
    ) ==> forall|i: int| 0 <= i < v.len() ==> (#[trigger] v[i]) is Str)
}

/// Whether a tool is declared soundly: it has a name and a list of sound parameters.
pub open spec fn sound_tool(t: Tree) -> bool {
    &&& t.field("name"@) matches Some(Tree::Str(_))
    &&& t.field("params"@) matches Some(Tree::Arr(ps)) && forall|i: int|
        0 <= i < ps.len() ==> sound_param(#[trigger] ps[i])
}

proof fn lemma_sound_param(p: Tree)
    ensures
        param_flaw(p) is None <==> sound_param(p),
{
    if let Some(Tree::Arr(v)) = p.field("enum"@) {
        if all_texts(v) {
            assert forall|i: int| 0 <= i < v.len() implies (#[trigger] v[i]) is Str by {
                assert(v[i].text() is Some);
            }
        }
        if forall|i: int| 0 <= i < v.len() ==> (#[trigger] v[i]) is Str {
            assert forall|i: int| 0 <= i < v.len() implies (#[trigger] v[i]).text() is Some by {
                assert(v[i] is Str);
            }
        }
    }
}

proof fn lemma_sound_params(ps: Seq<Tree>)
    ensures
        params_flaw(ps) is None <==> forall|i: int|
            0 <= i < ps.len() ==> sound_param(#[trigger] ps[i]),
    decreases ps.len(),
{
    if ps.len() > 0 {
        let init = ps.drop_last();
        lemma_sound_params(init);
        lemma_sound_param(ps.last());
        assert(ps[ps.len() - 1] == ps.last());
        if forall|i: int| 0 <= i < ps.len() ==> sound_param(#[trigger] ps[i]) {
            assert forall|i: int| 0 <= i < init.len() implies sound_param(#[trigger] init[i]) by {
                assert(ps[i] == init[i]);
            }
        }
        if params_flaw(ps) is None {
            assert forall|i: int| 0 <= i < ps.len() implies sound_param(#[trigger] ps[i]) by {
                if i < init.len() {
                    assert(ps[i] == init[i]);
                }
            }
        }
    }
}

/// A schema is refused exactly if it is no list or declares something unsoundly.
pub proof fn law_only_flawed_schemas_are_refused(ts: Seq<Tree>)
    ensures
        schema_flaw(Tree::Arr(ts)) is None <==> forall|i: int|
            0 <= i < ts.len() ==> sound_tool(#[trigger] ts[i]),
    decreases ts.len(),
{
    if ts.len() > 0 {
        let init = ts.drop_last();
        let t = ts.last();
        law_only_flawed_schemas_are_refused(init);
        if let Some(Tree::Arr(ps)) = t.field("params"@) {
            lemma_sound_params(ps);
        }
        assert(ts[ts.len() - 1] == t);
        if forall|i: int| 0 <= i < ts.len() ==> sound_tool(#[trigger] ts[i]) {
            assert forall|i: int| 0 <= i < init.len() implies sound_tool(#[trigger] init[i]) by {
                assert(ts[i] == init[i]);
            }
        }
        if tools_flaw(ts) is None {
            assert forall|i: int| 0 <= i < ts.len() implies sound_tool(#[trigger] ts[i]) by {
                if i < init.len() {
                    assert(ts[i] == init[i]);
                }
            }
        }
    }
}

} // verus!
