use vstd::prelude::*;

use crate::text::strs_view;
use crate::types::{push_arg, CommandLine, PackageManager};

verus! {

/// The formatter invocation through a manager: its program and the
/// arguments that come before the formatter's own.
pub open spec fn formatter_spec(m: PackageManager) -> (Seq<char>, Seq<Seq<char>>) {
    match m {
        PackageManager::Bun | PackageManager::BunOld => ("bun"@, seq!["run"@, "--bun"@, "oxfmt"@]),
        PackageManager::Deno => ("deno"@, seq!["run"@, "-A"@, "npm:oxfmt"@]),
        PackageManager::Npm => ("npx"@, seq!["--no-install"@, "oxfmt"@]),
        PackageManager::Pnpm => ("pnpm"@, seq!["exec"@, "oxfmt"@]),
        PackageManager::Yarn => ("yarn"@, seq!["exec"@, "oxfmt"@]),
    }
}

/// The command that runs the oxfmt formatter through the manager.
pub fn formatter_command(manager: PackageManager) -> (r: CommandLine)
    ensures
        (r.program@, strs_view(r.args@)) == formatter_spec(manager),
{
    let mut args: Vec<String> = Vec::new();
    let program = match manager {
        PackageManager::Bun | PackageManager::BunOld => {
            push_arg(&mut args, "run");
            push_arg(&mut args, "--bun");
            String::from_str("bun")
        },
        PackageManager::Deno => {
            push_arg(&mut args, "run");
            push_arg(&mut args, "-A");
            String::from_str("deno")
        },
        PackageManager::Npm => {
            push_arg(&mut args, "--no-install");
            String::from_str("npx")
        },
        PackageManager::Pnpm => {
            push_arg(&mut args, "exec");
            String::from_str("pnpm")
        },
        PackageManager::Yarn => {
            push_arg(&mut args, "exec");
            String::from_str("yarn")
        },
    };
    if manager == PackageManager::Deno {
        push_arg(&mut args, "npm:oxfmt");
    } else {
        push_arg(&mut args, "oxfmt");
    }
    proof {
        assert(strs_view(args@) =~= formatter_spec(manager).1);
    }
    CommandLine { program, args }
}

/// The scripts that the generated configuration adds to `package.json`,
/// each a name and a command.
pub fn ox_scripts() -> (r: Vec<(&'static str, &'static str)>)
    ensures
        r@.len() == 4,
        r@[0].0@ == "lint"@ && r@[0].1@ == "oxlint"@,
        r@[1].0@ == "lint:fix"@ && r@[1].1@ == "oxlint --fix"@,
        r@[2].0@ == "format"@ && r@[2].1@ == "oxfmt ."@,
        r@[3].0@ == "format:check"@ && r@[3].1@ == "oxfmt --check ."@,
{
    vec![
        ("lint", "oxlint"),
        ("lint:fix", "oxlint --fix"),
        ("format", "oxfmt ."),
        ("format:check", "oxfmt --check ."),
    ]
}

// ---------------------------------------------------------------------------
// Adding the scripts to `package.json`.
/// The JSON document that `serde_json::from_str` reads from `text`, or
/// `None` where the text is not JSON.
pub uninterp spec fn json_parse(text: Seq<char>) -> Option<serde_json::Value>;

/// Whether the document is a JSON object.
pub uninterp spec fn json_is_object(doc: serde_json::Value) -> bool;

/// The `scripts` object of the document, where the document is an object
/// whose `scripts` member is an object: each key with its JSON value.
pub uninterp spec fn json_scripts(doc: serde_json::Value) -> Option<Map<Seq<char>, serde_json::Value>>;

/// The JSON string `Value::String` holding `text`.
pub uninterp spec fn json_string(text: Seq<char>) -> serde_json::Value;

/// The document without its `scripts` member (the document itself where it
/// is not an object, or has no such member).
pub uninterp spec fn json_other_members(doc: serde_json::Value) -> serde_json::Value;

/// What `serde_json::to_string_pretty` writes for the document.
pub uninterp spec fn json_pretty(doc: serde_json::Value) -> Seq<char>;

/// `serde_json::from_str::<Value>`: the document the text holds, which
/// depends on the text alone and is named `json_parse`; the error is
/// passed on as its message.
#[verifier::external_body]
fn parse_json_text(contents: &str) -> (r: Result<serde_json::Value, String>)
    ensures
        r is Ok <==> json_parse(contents@) is Some,
        r matches Ok(doc) ==> json_parse(contents@) == Some(doc),
{
    match serde_json::from_str::<serde_json::Value>(contents) {
        Ok(doc) => Ok(doc),
        Err(error) => Err(error.to_string()),
    }
}

/// `Value::is_object`.
#[verifier::external_body]
fn is_json_object(doc: &serde_json::Value) -> (r: bool)
    ensures
        r == json_is_object(*doc),
{
    doc.is_object()
}

/// `Value::get("scripts")`, telling whether it gives an object. Only an
/// object has members, so a document with a `scripts` object is an object.
#[verifier::external_body]
fn has_scripts_object(doc: &serde_json::Value) -> (r: bool)
    ensures
        r == json_scripts(*doc) is Some,
        r ==> json_is_object(*doc),
{
    matches!(doc.get("scripts"), Some(serde_json::Value::Object(_)))
}

/// `Value::as_object_mut`, then `Map::insert` of an empty `scripts` object,
/// which replaces any `scripts` member and leaves the others as they were.
#[verifier::external_body]
fn create_scripts(doc: &mut serde_json::Value)
    requires
        json_is_object(*old(doc)),
    ensures
        json_is_object(*final(doc)),
        json_other_members(*final(doc)) == json_other_members(*old(doc)),
        json_scripts(*final(doc)) == Some(Map::<Seq<char>, serde_json::Value>::empty()),
{
    if let Some(object) = doc.as_object_mut() {
        object.insert("scripts".to_string(), serde_json::Value::Object(serde_json::Map::new()));
    }
}

/// `Value::get_mut("scripts")`, `Value::as_object_mut`, then `Map::insert`
/// of the script as a JSON string (`json_string`), which replaces a script
/// of that name;
/// the other members of the document are left as they were.
#[verifier::external_body]
fn set_script(doc: &mut serde_json::Value, key: &str, value: &str)
    requires
        json_scripts(*old(doc)) is Some,
    ensures
        json_is_object(*final(doc)),
        json_other_members(*final(doc)) == json_other_members(*old(doc)),
        json_scripts(*final(doc)) == Some(
            json_scripts(*old(doc))->Some_0.insert(key@, json_string(value@)),
        ),
{
    if let Some(scripts) = doc.get_mut("scripts").and_then(serde_json::Value::as_object_mut) {
        scripts.insert(key.to_string(), serde_json::Value::String(value.to_string()));
    }
}

/// `serde_json::to_string_pretty` on a document. A `Value` has string keys
/// only and its `Serialize` never fails, and writing to memory cannot fail,
/// so the call always succeeds.
#[verifier::external_body]
fn to_pretty_json(doc: &serde_json::Value) -> (r: String)
    ensures
        r@ == json_pretty(*doc),
{
    serde_json::to_string_pretty(doc).expect("a JSON value always serializes")
}

/// The scripts as pairs of texts.
pub open spec fn script_pairs(scripts: Seq<(&str, &str)>) -> Seq<(Seq<char>, Seq<char>)> {
    scripts.map_values(|pair: (&str, &str)| (pair.0@, pair.1@))
}

/// The scripts object after adding the scripts in order: a later script
/// replaces an earlier one of the same name.
pub open spec fn with_scripts(
    m: Map<Seq<char>, serde_json::Value>,
    scripts: Seq<(Seq<char>, Seq<char>)>,
) -> Map<Seq<char>, serde_json::Value>
    decreases scripts.len(),
{
    if scripts.len() == 0 {
        m
    } else {
        with_scripts(m, scripts.drop_last()).insert(scripts.last().0, json_string(scripts.last().1))
    }
}

/// The value that the scripts give last for `name`, if they give one.
pub open spec fn last_script(scripts: Seq<(Seq<char>, Seq<char>)>, name: Seq<char>) -> Option<
    Seq<char>,
>
    decreases scripts.len(),
{
    if scripts.len() == 0 {
        None
    } else if scripts.last().0 == name {
        Some(scripts.last().1)
    } else {
        last_script(scripts.drop_last(), name)
    }
}

/// After adding the scripts, a name they give holds the last value given
/// for it, as a JSON string, and every other name keeps its entry.
pub proof fn lemma_with_scripts_entries(
    m: Map<Seq<char>, serde_json::Value>,
    scripts: Seq<(Seq<char>, Seq<char>)>,
)
    ensures
        forall|name: Seq<char>|
            #[trigger] with_scripts(m, scripts).dom().contains(name) <==> (m.dom().contains(name)
                || last_script(scripts, name) is Some),
        forall|name: Seq<char>|
            #[trigger] with_scripts(m, scripts).dom().contains(name) ==> with_scripts(
                m,
                scripts,
            )[name] == match last_script(scripts, name) {
                Some(text) => json_string(text),
                None => m[name],
            },
    decreases scripts.len(),
{
    if scripts.len() > 0 {
        let rest = scripts.drop_last();
        let last = scripts.last();
        lemma_with_scripts_entries(m, rest);
        let before = with_scripts(m, rest);
        assert(with_scripts(m, scripts) == before.insert(last.0, json_string(last.1)));
        assert forall|name: Seq<char>| #[trigger]
            with_scripts(m, scripts).dom().contains(name) <==> (m.dom().contains(name)
                || last_script(scripts, name) is Some) by {
            if name != last.0 {
                assert(last_script(scripts, name) == last_script(rest, name));
                assert(before.dom().contains(name) <==> (m.dom().contains(name) || last_script(
                    rest,
                    name,
                ) is Some));
            }
        }
        assert forall|name: Seq<char>| #[trigger]
            with_scripts(m, scripts).dom().contains(name) implies with_scripts(m, scripts)[name]
            == match last_script(scripts, name) {
            Some(text) => json_string(text),
            None => m[name],
        } by {
            if name != last.0 {
                assert(last_script(scripts, name) == last_script(rest, name));
                assert(before.dom().contains(name));
            }
        }
    }
}

/// Adding the same scripts twice gives the scripts object of adding them once.
pub proof fn lemma_with_scripts_idempotent(
    m: Map<Seq<char>, serde_json::Value>,
    scripts: Seq<(Seq<char>, Seq<char>)>,
)
    ensures
        with_scripts(with_scripts(m, scripts), scripts) == with_scripts(m, scripts),
{
    let once = with_scripts(m, scripts);
    lemma_with_scripts_entries(m, scripts);
    lemma_with_scripts_entries(once, scripts);
    assert(with_scripts(once, scripts) =~= once);
}

/// Law: adding the same scripts to a document a second time changes
/// nothing further: whether it is an object, its other members and its
/// scripts object stay as the first time left them.
pub proof fn law_adding_scripts_again_changes_nothing(
    first: serde_json::Value,
    second: serde_json::Value,
    third: serde_json::Value,
    scripts: Seq<(Seq<char>, Seq<char>)>,
)
    requires
        scripts_added(first, second, scripts),
        scripts_added(second, third, scripts),
    ensures
        json_is_object(third) == json_is_object(second),
        json_other_members(third) == json_other_members(second),
        json_scripts(third) == json_scripts(second),
{
    match json_scripts(first) {
        Some(m) => {
            lemma_with_scripts_idempotent(m, scripts);
        },
        None => {
            lemma_with_scripts_idempotent(Map::empty(), scripts);
        },
    }
}

/// How adding the scripts changes a document: into its `scripts` object
/// where it has one; into a new `scripts` object where it is an object
/// without one; not at all where it is not an object. The other members
/// stay as they were.
pub open spec fn scripts_added(
    before: serde_json::Value,
    after: serde_json::Value,
    scripts: Seq<(Seq<char>, Seq<char>)>,
) -> bool {
    match json_scripts(before) {
        Some(m) => {
            &&& json_is_object(after)
            &&& json_other_members(after) == json_other_members(before)
            &&& json_scripts(after) == Some(with_scripts(m, scripts))
        },
        None => if json_is_object(before) {
            &&& json_is_object(after)
            &&& json_other_members(after) == json_other_members(before)
            &&& json_scripts(after) == Some(with_scripts(Map::empty(), scripts))
        } else {
            after == before
        },
    }
}

/// Adds the scripts to the document (see `scripts_added`).
pub fn set_scripts(doc: &mut serde_json::Value, scripts: &[(&str, &str)])
    ensures
        scripts_added(*old(doc), *final(doc), script_pairs(scripts@)),
{
    let ghost pairs = script_pairs(scripts@);
    if !has_scripts_object(doc) {
        if !is_json_object(doc) {
            return;
        }
        create_scripts(doc);
    }
    let ghost start = json_scripts(*doc)->Some_0;
    proof {
        assert(json_scripts(*old(doc)) is Some ==> start == json_scripts(*old(doc))->Some_0);
    }
    let n = scripts.len();
    for i in 0..n
        invariant
            n == scripts@.len(),
            pairs == script_pairs(scripts@),
            json_is_object(*doc),
            json_other_members(*doc) == json_other_members(*old(doc)),
            json_scripts(*doc) == Some(with_scripts(start, pairs.take(i as int))),
    {
        let (key, value) = scripts[i];
        set_script(doc, key, value);
        proof {
            assert(pairs.take(i + 1).drop_last() =~= pairs.take(i as int));
            assert(pairs.take(i + 1).last() == (key@, value@));
        }
    }
    proof {
        assert(pairs.take(n as int) =~= pairs);
    }
}

/// The new text of `package.json` with the scripts added: the pretty JSON
/// of the edited document and a newline. Text that is not JSON is refused
/// with the parser's message.
pub fn with_ox_scripts(contents: &str, scripts: &[(&str, &str)]) -> (r: Result<String, String>)
    ensures
        r is Ok <==> json_parse(contents@) is Some,
        r matches Ok(text) ==> exists|doc: serde_json::Value|
            #![trigger json_pretty(doc)]
            text@ == json_pretty(doc) + "\n"@ && scripts_added(
                json_parse(contents@)->Some_0,
                doc,
                script_pairs(scripts@),
            ),
{
    let mut doc = match parse_json_text(contents) {
        Ok(doc) => doc,
        Err(message) => {
            return Err(message);
        },
    };
    set_scripts(&mut doc, scripts);
    let mut text = to_pretty_json(&doc);
    text.append("\n");
    proof {
        reveal_strlit("\n");
    }
    Ok(text)
}

} // verus!
