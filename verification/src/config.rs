//! The configuration values that a host threads through the library: the
//! tokenizer's tab policy and the options a renderer reads.

use vstd::prelude::*;

verus! {

/// The default width of a tab stop, in spaces.
pub fn default_tab_size() -> (r: usize)
    ensures
        r == 4,
{
    4
}

/// The default highlighting theme name.
pub fn default_prism_theme() -> (r: String)
    ensures
        r@ == "vsc-dark-plus"@,
{
    String::from_str("vsc-dark-plus")
}

/// Whether generated HTML is sanitized when nothing says otherwise.
pub fn sanitize_by_default() -> (r: bool)
    ensures
        r,
{
    true
}

/// The stylesheet choice that stands for the built-in stylesheet.
pub fn default_css() -> (r: String)
    ensures
        r@ == "default"@,
{
    String::from_str("default")
}

/// Configuration for tokenization.
#[derive(Debug)]
pub struct LexerConfig {
    pub tab_size: usize,
}

impl Default for LexerConfig {
    /// The default tokenizer configuration: four spaces to a tab.
    fn default() -> (r: Self)
        ensures
            r.tab_size == 4,
    {
        LexerConfig { tab_size: default_tab_size() }
    }
}

/// Configuration for HTML generation.
#[derive(Debug)]
pub struct HtmlConfig {
    pub css_file: String,
    pub favicon_file: String,
    pub use_prism: bool,
    pub prism_theme: String,
    pub sanitize_html: bool,
}

impl Default for HtmlConfig {
    /// The default rendering configuration: the built-in stylesheet, no
    /// favicon, no highlighter, and sanitized output.
    fn default() -> (r: Self)
        ensures
            r.css_file@ == "default"@,
            r.favicon_file@.len() == 0,
            !r.use_prism,
            r.prism_theme@ == "vsc-dark-plus"@,
            r.sanitize_html,
    {
        HtmlConfig {
            css_file: default_css(),
            favicon_file: String::new(),
            use_prism: false,
            prism_theme: default_prism_theme(),
            sanitize_html: sanitize_by_default(),
        }
    }
}

/// The whole configuration: tokenizer and renderer settings together.
#[derive(Debug)]
pub struct Config {
    pub lexer: LexerConfig,
    pub html: HtmlConfig,
}

impl Default for Config {
    /// The default configuration, section by section.
    fn default() -> (r: Self)
        ensures
            r.lexer.tab_size == 4,
            r.html.css_file@ == "default"@,
            r.html.favicon_file@.len() == 0,
            !r.html.use_prism,
            r.html.prism_theme@ == "vsc-dark-plus"@,
            r.html.sanitize_html,
    {
        Config { lexer: Default::default(), html: Default::default() }
    }
}

} // verus!
