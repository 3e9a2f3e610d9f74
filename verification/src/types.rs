//! Option structures mirroring the build engine's configuration surface.
//! They are plain data assembled by the surrounding tooling and carried to
//! the engine; the codec never inspects them.

use std::collections::HashMap;
use vstd::prelude::*;

verus! {

pub enum Platform {
    Browser,
    Node,
    Neutral,
}

pub enum Format {
    IIFE,
    CommonJS,
    ESModule,
}

pub enum Loader {
    JS,
    JSX,
    TS,
    TSX,
    CSS,
    JSON,
    Text,
    Base64,
    File,
    Dataurl,
    Binary,
    Default,
}

pub enum LogLevel {
    Verbose,
    Debug,
    Info,
    Warning,
    Error,
    Silent,
}

pub enum Charset {
    Ascii,
    Utf8,
}

pub enum Drop {
    Console,
    Debugger,
}

pub enum Sourcemap {
    Inline,
    Linked,
    External,
    Both,
}

pub enum LegalComments {
    Disabled,
    Inline,
    EndOfFile,
    Linked,
    External,
}

pub enum Target {
    ESNext,
    ES5,
    ES2015,
    ES2016,
    ES2017,
    ES2018,
    ES2019,
    ES2020,
    ES2021,
    ES2022,
}

pub enum EngineName {
    EngineChrome,
    EngineEdge,
    EngineFirefo,
    EngineIE,
    EngineIOS,
    EngineNode,
    EngineOpera,
    EngineSafari,
}

pub struct Engine {
    name: EngineName,
    version: String,
}

pub enum JSXMode {
    Transform,
    Preserve,
}

/// The compiled regular expression type of the regex crate, declared so that
/// the option structs can carry one. Nothing here calls into it.
#[verifier::external_type_specification]
#[verifier::external_body]
pub struct ExRegex(regex::Regex);

#[allow(non_snake_case)]
pub struct CommonOptions {
    sourcemap: Option<Sourcemap>,
    legal_comments: Option<LegalComments>,
    source_root: Option<String>,
    sources_content: Option<bool>,
    format: Option<Format>,
    global_name: String,
    target: Option<Target>,
    engines: Option<Vec<Engine>>,
    mangle_props: Option<regex::Regex>,
    reserve_props: Option<regex::Regex>,
    mangle_quoted: Option<bool>,
    mangle_cache: Option<HashMap<String, Option<String>>>,
    drop: Option<Vec<Drop>>,
    minify: bool,
    minify_whitespace: bool,
    minify_identifiers: bool,
    minify_syntax: bool,
    charset: Option<Charset>,
    tree_shaking: Option<bool>,
    ignore_annotations: bool,
    jsx: Option<JSXMode>,
    jsx_factory: Option<String>,
    jsx_fragment: Option<String>,
    define: Option<HashMap<String, String>>,
    pure: Option<Vec<String>>,
    keep_names: bool,
    color: Option<bool>,
    logLevel: Option<LogLevel>,
    logLimit: i32,
}

pub struct TransformOptions {
    tsconfig_raw: String,
    loader: Option<Loader>,
    sourcefile: String,
    banner: String,
    footer: String,
}

} // verus!
