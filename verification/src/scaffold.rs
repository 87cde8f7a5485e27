//! Typed scaffolds for the slots of a blueprint: the envelopes of their ports, the schemas that
//! govern them, and a contract test, in four languages.
use vstd::prelude::*;

use crate::blueprint::{Blueprint, Direction, Port, Slot};
use crate::json::{json_string, quote};
use crate::text::{
    ascii_alphanumeric, cat2, cat3, cat4, cat5, cat7, chars, gather, is_ascii_alphanumeric, join,
    joined, lower, lower_char, put, replace, replaced, runs_from, same, split_runs, texts, to_upper,
    upper, upper_char, Class,
};

verus! {

/// A language that scaffolds are written in.
#[derive(Debug, Clone, Copy, PartialEq, Eq, Structural)]
pub enum ScaffoldLanguage {
    Rust,
    Python,
    C,
    TypeScript,
}

/// A file to be written.
#[derive(Debug, Clone, PartialEq, Eq)]
pub struct ScaffoldFile {
    pub relative_path: String,
    pub content: String,
}

/// An id in snake case: small letters and digits, with everything else turned into underscores.
pub open spec fn snake(id: Seq<char>) -> Seq<char> {
    id.map_values(
        |c: char|
            if ascii_alphanumeric(c) {
                lower(c)
            } else {
                '_'
            },
    )
}

/// A string with its ASCII small letters made capital.
pub open spec fn capitals(s: Seq<char>) -> Seq<char> {
    s.map_values(|c: char| upper(c))
}

/// The words of an id, each with its first letter made capital.
pub open spec fn capitalised(words: Seq<Seq<char>>) -> spec_fn(int) -> Seq<char> {
    |i: int|
        if words[i].len() > 0 {
            seq![upper(words[i][0])] + words[i].skip(1)
        } else {
            words[i]
        }
}

/// An id in Pascal case: its runs of letters and digits, each with its first letter made capital.
pub open spec fn pascal(id: Seq<char>) -> Seq<char> {
    let words = runs_from(id, Class::AsciiAlnum, 0);
    gather(words.len() as int, capitalised(words))
}

/// A direction as it stands in the documentation of a scaffold.
pub open spec fn direction_word(d: Direction) -> Seq<char> {
    match d {
        Direction::Input => "Input"@,
        Direction::Output => "Output"@,
    }
}

/// The name of the constant that holds the schema of a port.
pub open spec fn schema_name(p: Port) -> Seq<char> {
    capitals(snake(p.id@)) + "_SCHEMA"@
}

/// The field of a port in an envelope.
pub open spec fn field_text(language: ScaffoldLanguage, p: Port) -> Seq<char> {
    match language {
        ScaffoldLanguage::Rust => "    pub "@ + snake(p.id@) + ": Vec<u8>,\n"@,
        ScaffoldLanguage::Python => "    "@ + snake(p.id@) + ": bytes\n"@,
        ScaffoldLanguage::C => "    const unsigned char *"@ + snake(p.id@) + "_data;\n    size_t "@
            + snake(p.id@) + "_len;\n"@,
        ScaffoldLanguage::TypeScript => "  "@ + snake(p.id@) + ": Uint8Array;\n"@,
    }
}

/// The constant that holds the schema of a port; `slot` is the name of its slot in capitals.
pub open spec fn constant_text(language: ScaffoldLanguage, slot: Seq<char>, p: Port) -> Seq<char> {
    match language {
        ScaffoldLanguage::Rust => "pub const "@ + schema_name(p) + ": &str = "@ + json_string(
            p.schema@,
        ) + ";\n"@,
        ScaffoldLanguage::Python => schema_name(p) + " = "@ + json_string(p.schema@) + "\n"@,
        ScaffoldLanguage::C => "#define BONSAI_"@ + slot + "_"@ + schema_name(p) + " "@
            + json_string(p.schema@) + "\n"@,
        ScaffoldLanguage::TypeScript => "export const "@ + schema_name(p) + " = "@ + json_string(
            p.schema@,
        ) + " as const;\n"@,
    }
}

/// The fields of ports by position.
pub open spec fn field_texts(language: ScaffoldLanguage, ports: Seq<Port>) -> spec_fn(int) -> Seq<
    char,
> {
    |i: int| field_text(language, ports[i])
}

/// The constants of ports by position.
pub open spec fn constant_texts(
    language: ScaffoldLanguage,
    slot: Seq<char>,
    ports: Seq<Port>,
) -> spec_fn(int) -> Seq<char> {
    |i: int| constant_text(language, slot, ports[i])
}

/// The fields of an envelope, or what stands in an empty one.
pub open spec fn fields(language: ScaffoldLanguage, ports: Seq<Port>) -> Seq<char> {
    if ports.len() == 0 {
        match language {
            ScaffoldLanguage::Rust => "    // This side of the slot has no ports.\n"@,
            ScaffoldLanguage::Python => "    pass\n"@,
            ScaffoldLanguage::C => "    unsigned char _unused;\n"@,
            ScaffoldLanguage::TypeScript => Seq::empty(),
        }
    } else {
        gather(ports.len() as int, field_texts(language, ports))
    }
}

/// The port of a slot at a position, where it is one.
pub open spec fn port_of_slot(b: Blueprint, slot: Seq<char>) -> spec_fn(int) -> Seq<Port> {
    |i: int|
        if b.ports@[i].slot@ == slot {
            seq![b.ports@[i]]
        } else {
            seq![]
        }
}

/// The ports of a slot.
pub open spec fn ports_of_slot(b: Blueprint, slot: Seq<char>) -> Seq<Port> {
    gather(b.ports@.len() as int, port_of_slot(b, slot))
}

/// The port at a position, where it has a direction.
pub open spec fn port_directed(ports: Seq<Port>, d: Direction) -> spec_fn(int) -> Seq<Port> {
    |i: int|
        if ports[i].direction == d {
            seq![ports[i]]
        } else {
            seq![]
        }
}

/// The ports with a direction.
pub open spec fn ports_directed(ports: Seq<Port>, d: Direction) -> Seq<Port> {
    gather(ports.len() as int, port_directed(ports, d))
}

/// The contracts of ports, one to a line.
pub open spec fn contracts(ports: Seq<Port>) -> Seq<char> {
    joined(
        ports.map_values(
            |p: Port| p.id@ + " "@ + direction_word(p.direction) + ": "@ + p.schema@,
        ),
        "\n"@,
    )
}

/// The names of the constants that hold the schemas of ports.
pub open spec fn schema_names(ports: Seq<Port>) -> Seq<char> {
    joined(ports.map_values(|p: Port| schema_name(p)), ", "@)
}

/// The contents of the scaffold of a slot.
pub open spec fn scaffold_text(b: Blueprint, slot: Slot, language: ScaffoldLanguage) -> Seq<char> {
    let ports = ports_of_slot(b, slot.id@);
    let ins = fields(language, ports_directed(ports, Direction::Input));
    let outs = fields(language, ports_directed(ports, Direction::Output));
    let name = pascal(slot.id@);
    let stem = snake(slot.id@);
    let upper = capitals(stem);
    let consts = gather(ports.len() as int, constant_texts(language, upper, ports));
    match language {
        ScaffoldLanguage::Rust => rust_text(
            slot.id@,
            replaced(contracts(ports), '\n', "\n//! "@),
            consts,
            name,
            ins,
            outs,
            schema_names(ports),
        ),
        ScaffoldLanguage::Python => python_text(
            slot.id@,
            contracts(ports),
            consts,
            name,
            ins,
            outs,
            schema_names(ports),
        ),
        ScaffoldLanguage::C => c_text(
            slot.id@,
            replaced(contracts(ports), '\n', "\n * "@),
            upper,
            consts,
            ins,
            stem,
            outs,
        ),
        ScaffoldLanguage::TypeScript => typescript_text(
            slot.id@,
            replaced(contracts(ports), '\n', "\n * "@),
            consts,
            name,
            ins,
            outs,
        ),
    }
}

/// The extension of the files of a language.
pub open spec fn extension(language: ScaffoldLanguage) -> Seq<char> {
    match language {
        ScaffoldLanguage::Rust => "rs"@,
        ScaffoldLanguage::Python => "py"@,
        ScaffoldLanguage::C => "h"@,
        ScaffoldLanguage::TypeScript => "ts"@,
    }
}

/// The contents of a Rust scaffold.
pub open spec fn rust_text(id: Seq<char>, doc: Seq<char>, consts: Seq<char>, name: Seq<char>, ins: Seq<char>, outs: Seq<char>, schemas: Seq<char>) -> Seq<char> {
    "//! Generated typed contract scaffold for slot `"@
        + id
        + "`.\n//! Port payloads are serialized bytes governed by the schema constants below.\n//! "@
        + doc
        + "\n\n"@
        + consts
        + "\n#[derive(Debug, Clone, PartialEq, Eq)]\npub struct "@
        + name
        + "Input {\n"@
        + ins
        + "}\n\n#[derive(Debug, Clone, PartialEq, Eq)]\npub struct "@
        + name
        + "Output {\n"@
        + outs
        + "}\n\npub trait "@
        + name
        + " {\n    type Error;\n\n    fn execute(&mut self, input: "@
        + name
        + "Input) -> Result<"@
        + name
        + "Output, Self::Error>;\n}\n\n#[cfg(test)]\nmod contract_tests {\n    use super::*;\n\n    pub fn assert_implementation<T: "@
        + name
        + ">() {}\n\n    #[test]\n    fn schema_contract_is_well_formed() {\n        let schemas: &[&str] = &["@
        + schemas
        + "];\n        assert!(schemas.iter().all(|schema| !schema.is_empty()));\n    }\n}\n"@
}

fn write_rust(id: &str, doc: &str, consts: &str, name: &str, ins: &str, outs: &str, schemas: &str) -> (r: String)
    ensures
        r@ == rust_text(id@, doc@, consts@, name@, ins@, outs@, schemas@),
{
    let mut r = "//! Generated typed contract scaffold for slot `".to_owned();
    r.append(id);
    r.append("`.\n//! Port payloads are serialized bytes governed by the schema constants below.\n//! ");
    r.append(doc);
    r.append("\n\n");
    r.append(consts);
    r.append("\n#[derive(Debug, Clone, PartialEq, Eq)]\npub struct ");
    r.append(name);
    r.append("Input {\n");
    r.append(ins);
    r.append("}\n\n#[derive(Debug, Clone, PartialEq, Eq)]\npub struct ");
    r.append(name);
    r.append("Output {\n");
    r.append(outs);
    r.append("}\n\npub trait ");
    r.append(name);
    r.append(" {\n    type Error;\n\n    fn execute(&mut self, input: ");
    r.append(name);
    r.append("Input) -> Result<");
    r.append(name);
    r.append("Output, Self::Error>;\n}\n\n#[cfg(test)]\nmod contract_tests {\n    use super::*;\n\n    pub fn assert_implementation<T: ");
    r.append(name);
    r.append(">() {}\n\n    #[test]\n    fn schema_contract_is_well_formed() {\n        let schemas: &[&str] = &[");
    r.append(schemas);
    r.append("];\n        assert!(schemas.iter().all(|schema| !schema.is_empty()));\n    }\n}\n");
    r
}

/// The contents of a Python scaffold.
pub open spec fn python_text(id: Seq<char>, doc: Seq<char>, consts: Seq<char>, name: Seq<char>, ins: Seq<char>, outs: Seq<char>, schemas: Seq<char>) -> Seq<char> {
    "\"\"\"Generated typed contract scaffold for slot `"@
        + id
        + "`.\n"@
        + doc
        + "\n\"\"\"\nfrom dataclasses import dataclass\nfrom typing import Protocol\n\n"@
        + consts
        + "\n@dataclass(frozen=True)\nclass "@
        + name
        + "Input:\n"@
        + ins
        + "\n@dataclass(frozen=True)\nclass "@
        + name
        + "Output:\n"@
        + outs
        + "\nclass "@
        + name
        + "(Protocol):\n    def execute(self, input: "@
        + name
        + "Input) -> "@
        + name
        + "Output: ...\n\n\ndef test_schema_contract_is_well_formed() -> None:\n    assert all(("@
        + schemas
        + "))\n"@
}

fn write_python(id: &str, doc: &str, consts: &str, name: &str, ins: &str, outs: &str, schemas: &str) -> (r: String)
    ensures
        r@ == python_text(id@, doc@, consts@, name@, ins@, outs@, schemas@),
{
    let mut r = "\"\"\"Generated typed contract scaffold for slot `".to_owned();
    r.append(id);
    r.append("`.\n");
    r.append(doc);
    r.append("\n\"\"\"\nfrom dataclasses import dataclass\nfrom typing import Protocol\n\n");
    r.append(consts);
    r.append("\n@dataclass(frozen=True)\nclass ");
    r.append(name);
    r.append("Input:\n");
    r.append(ins);
    r.append("\n@dataclass(frozen=True)\nclass ");
    r.append(name);
    r.append("Output:\n");
    r.append(outs);
    r.append("\nclass ");
    r.append(name);
    r.append("(Protocol):\n    def execute(self, input: ");
    r.append(name);
    r.append("Input) -> ");
    r.append(name);
    r.append("Output: ...\n\n\ndef test_schema_contract_is_well_formed() -> None:\n    assert all((");
    r.append(schemas);
    r.append("))\n");
    r
}

/// The contents of a C scaffold.
pub open spec fn c_text(id: Seq<char>, doc: Seq<char>, upper: Seq<char>, consts: Seq<char>, ins: Seq<char>, stem: Seq<char>, outs: Seq<char>) -> Seq<char> {
    "/* Generated typed contract scaffold for slot `"@
        + id
        + "`.\n * "@
        + doc
        + "\n */\n#ifndef BONSAI_"@
        + upper
        + "_H\n#define BONSAI_"@
        + upper
        + "_H\n#include <stddef.h>\n\n"@
        + consts
        + "\ntypedef struct {\n"@
        + ins
        + "} "@
        + stem
        + "_input;\n\ntypedef struct {\n"@
        + outs
        + "} "@
        + stem
        + "_output;\n\nint "@
        + stem
        + "_execute(void *context, const "@
        + stem
        + "_input *input, "@
        + stem
        + "_output *output);\n\n#endif\n"@
}

fn write_c(id: &str, doc: &str, upper: &str, consts: &str, ins: &str, stem: &str, outs: &str) -> (r: String)
    ensures
        r@ == c_text(id@, doc@, upper@, consts@, ins@, stem@, outs@),
{
    let mut r = "/* Generated typed contract scaffold for slot `".to_owned();
    r.append(id);
    r.append("`.\n * ");
    r.append(doc);
    r.append("\n */\n#ifndef BONSAI_");
    r.append(upper);
    r.append("_H\n#define BONSAI_");
    r.append(upper);
    r.append("_H\n#include <stddef.h>\n\n");
    r.append(consts);
    r.append("\ntypedef struct {\n");
    r.append(ins);
    r.append("} ");
    r.append(stem);
    r.append("_input;\n\ntypedef struct {\n");
    r.append(outs);
    r.append("} ");
    r.append(stem);
    r.append("_output;\n\nint ");
    r.append(stem);
    r.append("_execute(void *context, const ");
    r.append(stem);
    r.append("_input *input, ");
    r.append(stem);
    r.append("_output *output);\n\n#endif\n");
    r
}

/// The contents of a TypeScript scaffold.
pub open spec fn typescript_text(id: Seq<char>, doc: Seq<char>, consts: Seq<char>, name: Seq<char>, ins: Seq<char>, outs: Seq<char>) -> Seq<char> {
    "/** Generated typed contract scaffold for slot `"@
        + id
        + "`.\n * "@
        + doc
        + "\n */\n"@
        + consts
        + "\nexport interface "@
        + name
        + "Input {\n"@
        + ins
        + "}\n\nexport interface "@
        + name
        + "Output {\n"@
        + outs
        + "}\n\nexport interface "@
        + name
        + " {\n  execute(input: "@
        + name
        + "Input): Promise<"@
        + name
        + "Output>;\n}\n"@
}

fn write_typescript(id: &str, doc: &str, consts: &str, name: &str, ins: &str, outs: &str) -> (r: String)
    ensures
        r@ == typescript_text(id@, doc@, consts@, name@, ins@, outs@),
{
    let mut r = "/** Generated typed contract scaffold for slot `".to_owned();
    r.append(id);
    r.append("`.\n * ");
    r.append(doc);
    r.append("\n */\n");
    r.append(consts);
    r.append("\nexport interface ");
    r.append(name);
    r.append("Input {\n");
    r.append(ins);
    r.append("}\n\nexport interface ");
    r.append(name);
    r.append("Output {\n");
    r.append(outs);
    r.append("}\n\nexport interface ");
    r.append(name);
    r.append(" {\n  execute(input: ");
    r.append(name);
    r.append("Input): Promise<");
    r.append(name);
    r.append("Output>;\n}\n");
    r
}

fn to_snake(id: &str) -> (r: String)
    ensures
        r@ == snake(id@),
{
    let a = chars(id);
    let mut r = String::new();
    let mut i: usize = 0;
    while i < a.len()
        invariant
            a@ == id@,
            i <= a.len(),
            r@ =~= snake(id@).take(i as int),
        decreases a.len() - i,
    {
        let c = a[i];
        if is_ascii_alphanumeric(c) {
            r.push(lower_char(c));
        } else {
            r.push('_');
        }
        i += 1;
    }
    r
}

fn to_pascal(id: &str) -> (r: String)
    ensures
        r@ == pascal(id@),
{
    let words = split_runs(id, Class::AsciiAlnum);
    let ghost all = texts(words@);
    let mut r = String::new();
    let mut i: usize = 0;
    while i < words.len()
        invariant
            all == texts(words@),
            i <= words.len(),
            r@ =~= gather(i as int, capitalised(all)),
        decreases words.len() - i,
    {
        let w = chars(words[i].as_str());
        assert(all[i as int] == w@);
        let ghost before = r@;
        if w.len() > 0 {
            r.push(upper_char(w[0]));
            let rest = crate::text::slice(&w, 1, w.len());
            assert(w@.subrange(1, w@.len() as int) =~= w@.skip(1));
            r.append(rest.as_str());
            assert(r@ =~= before + (seq![upper(w@[0])] + w@.skip(1)));
        } else {
            assert(w@ =~= Seq::<char>::empty());
        }
        i += 1;
    }
    r
}

fn write_schema_name(p: &Port) -> (r: String)
    ensures
        r@ == schema_name(*p),
{
    cat2(to_upper(to_snake(p.id.as_str()).as_str()).as_str(), "_SCHEMA")
}

fn write_field(language: ScaffoldLanguage, p: &Port) -> (r: String)
    ensures
        r@ == field_text(language, *p),
{
    let id = to_snake(p.id.as_str());
    match language {
        ScaffoldLanguage::Rust => cat3("    pub ", id.as_str(), ": Vec<u8>,\n"),
        ScaffoldLanguage::Python => cat3("    ", id.as_str(), ": bytes\n"),
        ScaffoldLanguage::C => cat5(
            "    const unsigned char *",
            id.as_str(),
            "_data;\n    size_t ",
            id.as_str(),
            "_len;\n",
        ),
        ScaffoldLanguage::TypeScript => cat3("  ", id.as_str(), ": Uint8Array;\n"),
    }
}

fn write_constant(language: ScaffoldLanguage, slot: &str, p: &Port) -> (r: String)
    ensures
        r@ == constant_text(language, slot@, *p),
{
    let name = write_schema_name(p);
    let schema = quote(p.schema.as_str());
    match language {
        ScaffoldLanguage::Rust => cat5(
            "pub const ",
            name.as_str(),
            ": &str = ",
            schema.as_str(),
            ";\n",
        ),
        ScaffoldLanguage::Python => cat4(name.as_str(), " = ", schema.as_str(), "\n"),
        ScaffoldLanguage::C => cat7(
            "#define BONSAI_",
            slot,
            "_",
            name.as_str(),
            " ",
            schema.as_str(),
            "\n",
        ),
        ScaffoldLanguage::TypeScript => cat5(
            "export const ",
            name.as_str(),
            " = ",
            schema.as_str(),
            " as const;\n",
        ),
    }
}

fn write_fields(language: ScaffoldLanguage, ports: &Vec<Port>) -> (r: String)
    ensures
        r@ == fields(language, ports@),
{
    if ports.len() == 0 {
        return match language {
            ScaffoldLanguage::Rust => "    // This side of the slot has no ports.\n".to_owned(),
            ScaffoldLanguage::Python => "    pass\n".to_owned(),
            ScaffoldLanguage::C => "    unsigned char _unused;\n".to_owned(),
            ScaffoldLanguage::TypeScript => {
                let none = String::new();
                assert(none@ =~= Seq::<char>::empty());
                none
            },
        };
    }
    let mut r = String::new();
    let mut i: usize = 0;
    while i < ports.len()
        invariant
            i <= ports.len(),
            r@ =~= gather(i as int, field_texts(language, ports@)),
        decreases ports.len() - i,
    {
        r.append(write_field(language, &ports[i]).as_str());
        i += 1;
    }
    r
}

fn write_constants(language: ScaffoldLanguage, slot: &str, ports: &Vec<Port>) -> (r: String)
    ensures
        r@ == gather(ports@.len() as int, constant_texts(language, slot@, ports@)),
{
    let mut r = String::new();
    let mut i: usize = 0;
    while i < ports.len()
        invariant
            i <= ports.len(),
            r@ =~= gather(i as int, constant_texts(language, slot@, ports@)),
        decreases ports.len() - i,
    {
        r.append(write_constant(language, slot, &ports[i]).as_str());
        i += 1;
    }
    r
}

fn write_contracts(ports: &Vec<Port>) -> (r: String)
    ensures
        r@ == contracts(ports@),
{
    let ghost goal = ports@.map_values(
        |p: Port| p.id@ + " "@ + direction_word(p.direction) + ": "@ + p.schema@,
    );
    let mut out: Vec<String> = Vec::new();
    let mut i: usize = 0;
    while i < ports.len()
        invariant
            i <= ports.len(),
            goal == ports@.map_values(
                |p: Port| p.id@ + " "@ + direction_word(p.direction) + ": "@ + p.schema@,
            ),
            texts(out@) =~= goal.take(i as int),
        decreases ports.len() - i,
    {
        let p = &ports[i];
        let word = match p.direction {
            Direction::Input => "Input",
            Direction::Output => "Output",
        };
        put(&mut out, cat5(p.id.as_str(), " ", word, ": ", p.schema.as_str()));
        assert(goal.take(i + 1) =~= goal.take(i as int).push(goal[i as int]));
        i += 1;
    }
    assert(goal.take(goal.len() as int) =~= goal);
    join(&out, "\n")
}

fn write_schema_names(ports: &Vec<Port>) -> (r: String)
    ensures
        r@ == schema_names(ports@),
{
    let ghost goal = ports@.map_values(|p: Port| schema_name(p));
    let mut out: Vec<String> = Vec::new();
    let mut i: usize = 0;
    while i < ports.len()
        invariant
            i <= ports.len(),
            goal == ports@.map_values(|p: Port| schema_name(p)),
            texts(out@) =~= goal.take(i as int),
        decreases ports.len() - i,
    {
        put(&mut out, write_schema_name(&ports[i]));
        assert(goal.take(i + 1) =~= goal.take(i as int).push(goal[i as int]));
        i += 1;
    }
    assert(goal.take(goal.len() as int) =~= goal);
    join(&out, ", ")
}

fn list_directed(ports: &Vec<Port>, d: Direction) -> (r: Vec<Port>)
    ensures
        r@ == ports_directed(ports@, d),
{
    let mut r: Vec<Port> = Vec::new();
    let mut i: usize = 0;
    while i < ports.len()
        invariant
            i <= ports.len(),
            r@ =~= gather(i as int, port_directed(ports@, d)),
        decreases ports.len() - i,
    {
        if ports[i].direction == d {
            r.push(ports[i].copy());
        }
        i += 1;
    }
    r
}

fn list_of_slot(b: &Blueprint, slot: &str) -> (r: Vec<Port>)
    ensures
        r@ == ports_of_slot(*b, slot@),
{
    let mut r: Vec<Port> = Vec::new();
    let mut i: usize = 0;
    while i < b.ports.len()
        invariant
            i <= b.ports.len(),
            r@ =~= gather(i as int, port_of_slot(*b, slot@)),
        decreases b.ports.len() - i,
    {
        if same(b.ports[i].slot.as_str(), slot) {
            r.push(b.ports[i].copy());
        }
        i += 1;
    }
    r
}

fn scaffold_slot(b: &Blueprint, slot: &Slot, language: ScaffoldLanguage) -> (r: ScaffoldFile)
    ensures
        r.relative_path@ == snake(slot.id@) + "."@ + extension(language),
        r.content@ == scaffold_text(*b, *slot, language),
{
    let ports = list_of_slot(b, slot.id.as_str());
    let ins = write_fields(language, &list_directed(&ports, Direction::Input));
    let outs = write_fields(language, &list_directed(&ports, Direction::Output));
    let name = to_pascal(slot.id.as_str());
    let stem = to_snake(slot.id.as_str());
    let upper = to_upper(stem.as_str());
    let consts = write_constants(language, upper.as_str(), &ports);
    let doc = write_contracts(&ports);
    let schemas = write_schema_names(&ports);
    let (ext, content) = match language {
        ScaffoldLanguage::Rust => (
            "rs",
            write_rust(
                slot.id.as_str(),
                replace(doc.as_str(), '\n', "\n//! ").as_str(),
                consts.as_str(),
                name.as_str(),
                ins.as_str(),
                outs.as_str(),
                schemas.as_str(),
            ),
        ),
        ScaffoldLanguage::Python => (
            "py",
            write_python(
                slot.id.as_str(),
                doc.as_str(),
                consts.as_str(),
                name.as_str(),
                ins.as_str(),
                outs.as_str(),
                schemas.as_str(),
            ),
        ),
        ScaffoldLanguage::C => (
            "h",
            write_c(
                slot.id.as_str(),
                replace(doc.as_str(), '\n', "\n * ").as_str(),
                upper.as_str(),
                consts.as_str(),
                ins.as_str(),
                stem.as_str(),
                outs.as_str(),
            ),
        ),
        ScaffoldLanguage::TypeScript => (
            "ts",
            write_typescript(
                slot.id.as_str(),
                replace(doc.as_str(), '\n', "\n * ").as_str(),
                consts.as_str(),
                name.as_str(),
                ins.as_str(),
                outs.as_str(),
            ),
        ),
    };
    ScaffoldFile { relative_path: cat3(stem.as_str(), ".", ext), content }
}

impl Blueprint {
    /// One file for each slot, named after it.
    pub fn scaffold_files(&self, language: ScaffoldLanguage) -> (r: Vec<ScaffoldFile>)
        ensures
            r.len() == self.slots.len(),
            forall|i: int|
                0 <= i < r.len() ==> {
                    &&& (#[trigger] r@[i]).relative_path@ == snake(self.slots@[i].id@) + "."@
                        + extension(language)
                    &&& r@[i].content@ == scaffold_text(*self, self.slots@[i], language)
                },
    {
        let mut r: Vec<ScaffoldFile> = Vec::new();
        let mut i: usize = 0;
        while i < self.slots.len()
            invariant
                i <= self.slots.len(),
                r.len() == i,
                forall|k: int|
                    0 <= k < i ==> {
                        &&& (#[trigger] r@[k]).relative_path@ == snake(self.slots@[k].id@) + "."@
                            + extension(language)
                        &&& r@[k].content@ == scaffold_text(*self, self.slots@[k], language)
                    },
            decreases self.slots.len() - i,
        {
            r.push(scaffold_slot(self, &self.slots[i], language));
            i += 1;
        }
        r
    }
}

} // verus!
