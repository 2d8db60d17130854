//! The parser as a plugin: what it is called, what it handles, and what it
//! makes of a file.

use crate::case;
use crate::component;
use crate::node::SemanticNode;
use crate::pieces;
use crate::text;
use vstd::prelude::*;

verus! {

broadcast use vstd::string::group_string_axioms;

/// How a plugin parses.
#[derive(Clone, Copy, Debug, PartialEq, Eq, Structural)]
pub enum ParserMode {
    /// The plugin makes the whole tree itself.
    FullParse,
}

/// A text before and after an edit.
pub struct ExamplePair {
    pub old: String,
    pub new: String,
}

/// What the plugin's metadata say of a language.
pub struct LanguageInfo {
    pub language_id: String,
    pub language_name: String,
    pub language_short_name: String,
    pub monaco_language: String,
    pub default_filename: String,
    pub language_file_extensions: Vec<String>,
}

/// What the plugin tells its host of a language.
pub struct LanguageInfoRecord {
    pub language_id: String,
    pub language_name: String,
    pub language_short_name: String,
    pub monaco_language: String,
    pub default_filename: String,
    pub language_file_extensions: Vec<String>,
    pub author: String,
    pub plugin_version: String,
    pub last_updated: String,
}

/// A record holds what is known of its language, and who made the plugin when.
pub open spec fn record_of(
    record: LanguageInfoRecord,
    info: LanguageInfo,
    author: Seq<char>,
    plugin_version: Seq<char>,
    last_updated: Seq<char>,
) -> bool {
    &&& record.language_id == info.language_id
    &&& record.language_name == info.language_name
    &&& record.language_short_name == info.language_short_name
    &&& record.monaco_language == info.monaco_language
    &&& record.default_filename == info.default_filename
    &&& record.language_file_extensions == info.language_file_extensions
    &&& record.author@ == author
    &&& record.plugin_version@ == plugin_version
    &&& record.last_updated@ == last_updated
}

/// A record holds every part of what is known of its language, and nothing else
/// in its place.
pub proof fn law_record_is_complete(
    record: LanguageInfoRecord,
    info: LanguageInfo,
    author: Seq<char>,
    plugin_version: Seq<char>,
    last_updated: Seq<char>,
)
    ensures
        record_of(record, info, author, plugin_version, last_updated) <==> ({
            &&& record.language_id == info.language_id
            &&& record.language_name == info.language_name
            &&& record.language_short_name == info.language_short_name
            &&& record.monaco_language == info.monaco_language
            &&& record.default_filename == info.default_filename
            &&& record.language_file_extensions == info.language_file_extensions
            &&& record.author@ == author
            &&& record.plugin_version@ == plugin_version
            &&& record.last_updated@ == last_updated
        }),
{
}

/// The records for languages, in their order.
pub fn language_info_for(
    infos: Vec<LanguageInfo>,
    author: &str,
    plugin_version: &str,
    last_updated: &str,
) -> (r: Vec<LanguageInfoRecord>)
    ensures
        r@.len() == infos@.len(),
        forall|i: int|
            0 <= i < infos@.len() ==> record_of(
                #[trigger] r@[i],
                infos@[i],
                author@,
                plugin_version@,
                last_updated@,
            ),
{
    let mut r: Vec<LanguageInfoRecord> = Vec::new();
    for info in it: infos
        invariant
            it.seq() == infos@,
            r@.len() == it.index(),
            forall|i: int|
                0 <= i < r@.len() ==> record_of(
                    #[trigger] r@[i],
                    infos@[i],
                    author@,
                    plugin_version@,
                    last_updated@,
                ),
    {
        r.push(
            LanguageInfoRecord {
                language_id: info.language_id,
                language_name: info.language_name,
                language_short_name: info.language_short_name,
                monaco_language: info.monaco_language,
                default_filename: info.default_filename,
                language_file_extensions: info.language_file_extensions,
                author: author.to_string(),
                plugin_version: plugin_version.to_string(),
                last_updated: last_updated.to_string(),
            },
        );
    }
    r
}

/// A component with a greeting.
pub const EXAMPLE_OLD: &'static str =
    "<template>\n  <h1>{{ greeting }}</h1>\n</template>\n\n<script>\nexport default {\n  data() {\n    return {\n      greeting: 'Hello, World!'\n    }\n  }\n}\n</script>\n";

/// The component with a button that changes the greeting.
pub const EXAMPLE_NEW: &'static str =
    "<template>\n  <div>\n    <h1>{{ greeting }}</h1>\n    <button @click=\"changeGreeting\">Change</button>\n  </div>\n</template>\n\n<script>\nexport default {\n  data() {\n    return {\n      greeting: 'Hello, World!',\n      names: ['Alice', 'Bob', 'Carol'],\n      current: 0\n    }\n  },\n  methods: {\n    changeGreeting() {\n      this.current = (this.current + 1) % this.names.length;\n      this.greeting = 'Hello, ' + this.names[this.current] + '!';\n    }\n  }\n}\n</script>\n";

/// An ASCII file name that ends with `.vue` does so in lower case too, so its
/// language is `vue`.
pub proof fn law_vue_files_are_detected(filename: Seq<char>)
    requires
        vstd::utf8::is_ascii_chars(filename),
        ".vue"@.is_suffix_of(filename),
    ensures
        ".vue"@.is_suffix_of(case::lowercased(filename)),
{
    reveal_strlit(".vue");
    let n = filename.len();
    let lower = case::lowercased(filename);
    let tail = filename.subrange(n - 4, n as int);
    assert forall|j: int| 0 <= j < 4 implies #[trigger] lower.subrange(n - 4, n as int)[j]
        == ".vue"@[j] by {
        assert(filename[n - 4 + j] == tail[j]);
    }
    assert(lower.subrange(n - 4, n as int) =~= ".vue"@);
}

/// The case of the letters makes no difference: an ASCII file name is that of a
/// Vue file exactly where its last four characters are `.`, `v`, `u` and `e`, the
/// letters small or capital.
pub proof fn law_case_of_extension_does_not_matter(filename: Seq<char>)
    requires
        vstd::utf8::is_ascii_chars(filename),
    ensures
        ".vue"@.is_suffix_of(case::lowercased(filename)) <==> ({
            let n = filename.len() as int;
            &&& n >= 4
            &&& filename[n - 4] == '.'
            &&& filename[n - 3] == 'v' || filename[n - 3] == 'V'
            &&& filename[n - 2] == 'u' || filename[n - 2] == 'U'
            &&& filename[n - 1] == 'e' || filename[n - 1] == 'E'
        }),
{
    reveal_strlit(".vue");
    let n = filename.len() as int;
    let lower = case::lowercased(filename);
    if n >= 4 {
        let tail = lower.subrange(n - 4, n);
        assert(tail[0] == case::ascii_lower(filename[n - 4]));
        assert(tail[1] == case::ascii_lower(filename[n - 3]));
        assert(tail[2] == case::ascii_lower(filename[n - 2]));
        assert(tail[3] == case::ascii_lower(filename[n - 1]));
        if tail[0] == '.' && tail[1] == 'v' && tail[2] == 'u' && tail[3] == 'e' {
            assert(tail =~= ".vue"@);
        }
    }
}

/// The Vue parser plugin.
pub struct VueParser;

impl VueParser {
    /// The plugin parses by itself.
    pub fn get_parser_mode() -> (r: ParserMode)
        ensures
            r == ParserMode::FullParse,
    {
        ParserMode::FullParse
    }

    /// The name of the plugin's grammar.
    pub fn grammar_id() -> (r: String)
        ensures
            r@ == "vue"@,
    {
        "vue".to_string()
    }

    /// The language of a file: `vue` where its name ends with `.vue` in any
    /// case, and else none.
    pub fn detect_language(filename: String, _content: String) -> (r: String)
        ensures
            r@ == (if ".vue"@.is_suffix_of(case::lowercased(filename@)) {
                "vue"@
            } else {
                ""@
            }),
    {
        let lower = case::to_lowercase(filename.as_str());
        if text::ends_with(lower.as_str(), ".vue") {
            "vue".to_string()
        } else {
            "".to_string()
        }
    }

    /// A source is parsed as it is.
    pub fn preprocess_source(source: String) -> (r: String)
        ensures
            r == source,
    {
        source
    }

    /// An edit to show the plugin with.
    pub fn example(_language: String) -> (r: ExamplePair)
        ensures
            r.old@ == EXAMPLE_OLD@,
            r.new@ == EXAMPLE_NEW@,
    {
        ExamplePair { old: EXAMPLE_OLD.to_string(), new: EXAMPLE_NEW.to_string() }
    }

    /// The semantic tree of the component `input`, kept in the file `filename`.
    pub fn process(input: String, _language: String, filename: String) -> (r: SemanticNode)
        requires
            pieces::line_seq(input@).len() <= u32::MAX,
        ensures
            r@ == component::component_node(input@, filename@),
    {
        component::process_impl(input.as_str(), filename.as_str())
    }

    /// No node is trivia.
    pub fn trivia_node_types() -> (r: Vec<String>)
        ensures
            r@.len() == 0,
    {
        Vec::new()
    }

    /// The languages that the plugin handles.
    pub fn language_ids() -> (r: Vec<String>)
        ensures
            r.deep_view() == seq!["vue"@],
    {
        let mut r: Vec<String> = Vec::new();
        r.push(Self::grammar_id());
        assert(r.deep_view() =~= seq!["vue"@]);
        r
    }

    /// The plugin takes no precedence over others.
    pub fn priority() -> (r: i32)
        ensures
            r == 0,
    {
        0
    }
}

} // verus!
