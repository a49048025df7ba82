//! Which request goes where.
use vstd::prelude::*;
use crate::json::{field, fields_tree, object, one_value, string, Json, Tree};
use crate::text::{chars_of, same_text, slice_chars, text_of};

verus! {

/// What a request asks of the server.
pub enum Route {
    Completions,
    Models,
    Health,
    Options,
    /// nothing that there is; the message says so
    Unknown(String),
}

/// Whether `i` is where a path ends and its query begins.
pub open spec fn query_at(s: Seq<char>, i: int) -> bool {
    &&& 0 <= i <= s.len()
    &&& i < s.len() ==> s[i] == '?'
    &&& forall|j: int| 0 <= j < i ==> (#[trigger] s[j]) != '?'
}

/// The path of a target, without its query.
pub open spec fn path_of(s: Seq<char>) -> Seq<char> {
    s.take(choose|i: int| query_at(s, i))
}

/// That there is no such route.
pub open spec fn no_route(method: Seq<char>, path: Seq<char>) -> Seq<char> {
    "no route for "@ + method + " "@ + path + "; this server implements /v1/completions only"@
}

/// What a request asks of the server.
pub open spec fn routed(method: Seq<char>, path: Seq<char>, r: Route) -> bool {
    if method == "POST"@ && path == "/v1/completions"@ {
        r is Completions
    } else if method == "GET"@ && path == "/v1/models"@ {
        r is Models
    } else if method == "GET"@ && path == "/health"@ {
        r is Health
    } else if method == "OPTIONS"@ {
        r is Options
    } else {
        r matches Route::Unknown(m) && m@ == no_route(method, path)
    }
}

/// What a request asks of the server.
pub fn route(method: &str, target: &str) -> (r: Route)
    ensures
        routed(method@, path_of(target@), r),
{
    let cs = chars_of(target);
    let mut i: usize = 0;
    while i < cs.len() && cs[i] != '?'
        invariant
            i <= cs@.len(),
            forall|j: int| 0 <= j < i ==> (#[trigger] cs@[j]) != '?',
        decreases cs@.len() - i,
    {
        i += 1;
    }
    proof {
        assert(query_at(target@, i as int));
        let k = choose|k: int| query_at(target@, k);
        assert(k == i);
    }
    let path = text_of(slice_chars(&cs, 0, i).as_slice());
    assert(path@ =~= target@.take(i as int));
    if same_text(method, "POST") && same_text(path.as_str(), "/v1/completions") {
        Route::Completions
    } else if same_text(method, "GET") && same_text(path.as_str(), "/v1/models") {
        Route::Models
    } else if same_text(method, "GET") && same_text(path.as_str(), "/health") {
        Route::Health
    } else if same_text(method, "OPTIONS") {
        Route::Options
    } else {
        let mut m = "no route for ".to_owned();
        m.append(method);
        m.append(" ");
        m.append(path.as_str());
        m.append("; this server implements /v1/completions only");
        Route::Unknown(m)
    }
}

/// A query changes nothing: a path goes where it goes without one, and what is not a
/// query stays.
pub proof fn law_a_query_changes_nothing(path: Seq<char>, query: Seq<char>)
    requires
        !path.contains('?'),
    ensures
        path_of(path) == path,
        path_of(path + seq!['?'] + query) == path,
{
    let n = path.len() as int;
    let s = path + seq!['?'] + query;
    assert forall|j: int| 0 <= j < n implies (#[trigger] path[j]) != '?' && s[j] != '?' by {
        assert(path.contains(path[j]));
    }
    assert(query_at(path, n));
    assert(query_at(s, n));
    let i = choose|i: int| query_at(path, i);
    assert(i == n) by {
        if i < n {
            assert(path[i] != '?');
        }
    }
    let j = choose|j: int| query_at(s, j);
    assert(j == n) by {
        if j < n {
            assert(s[j] != '?');
        } else if n < j {
            assert(s[n] != '?');
        }
    }
    assert(path.take(n) =~= path);
    assert(s.take(n) =~= path);
}

/// One method and one path lead to completions, and one each to the list of models
/// and to the state of health; `OPTIONS` is answered anywhere, and everything else
/// is named in the message that there is no route for it.
pub proof fn law_each_route_has_one_door(method: Seq<char>, path: Seq<char>, r: Route)
    requires
        routed(method, path, r),
    ensures
        r is Completions <==> method == "POST"@ && path == "/v1/completions"@,
        r is Models <==> method == "GET"@ && path == "/v1/models"@,
        r is Health <==> method == "GET"@ && path == "/health"@,
        r is Options <==> method == "OPTIONS"@,
        r matches Route::Unknown(m) ==> {
            let n = "no route for "@.len() as int;
            &&& m@.subrange(n, n + method.len()) == method
            &&& m@.subrange(n + method.len() + 1, n + method.len() + 1 + path.len()) == path
        },
{
    reveal_strlit("POST");
    reveal_strlit("GET");
    reveal_strlit("OPTIONS");
    reveal_strlit("/v1/models");
    reveal_strlit("/health");
    reveal_strlit(" ");
    assert("POST"@.len() != "GET"@.len() && "POST"@.len() != "OPTIONS"@.len() && "GET"@.len()
        != "OPTIONS"@.len());
    assert("/v1/models"@.len() != "/health"@.len());
    if let Route::Unknown(m) = r {
        let n = "no route for "@.len() as int;
        assert(m@.subrange(n, n + method.len()) =~= method);
        assert(m@.subrange(n + method.len() + 1, n + method.len() + 1 + path.len()) =~= path);
    }
}

/// The list of models: the one that is loaded.
pub open spec fn models_tree(model_id: Seq<char>) -> Tree {
    Tree::Obj(
        seq![
            ("object"@, Tree::Str("list"@)),
            (
                "data"@,
                Tree::Arr(
                    seq![
                        Tree::Obj(
                            seq![
                                ("id"@, Tree::Str(model_id)),
                                ("object"@, Tree::Str("model"@)),
                                ("owned_by"@, Tree::Str("fastgemma"@)),
                            ],
                        ),
                    ],
                ),
            ),
        ],
    )
}

/// The list of models: the one that is loaded.
pub fn models(model_id: &str) -> (j: Json)
    ensures
        j.tree() == models_tree(model_id@),
{
    let v = vec![
        field("id", string(model_id)),
        field("object", string("model")),
        field("owned_by", string("fastgemma")),
    ];
    let ghost want = models_tree(model_id@);
    let ghost inner = want->Obj_0[1].1->Arr_0[0];
    assert(fields_tree(v@) =~= inner->Obj_0);
    let data = one_value(object(v));
    let w = vec![field("object", string("list")), field("data", data)];
    assert(fields_tree(w@) =~= want->Obj_0);
    object(w)
}

} // verus!
