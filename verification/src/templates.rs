//! The template engine: a registry of named body skeletons, rendered
//! against a string-keyed context. The rendering itself is done by the
//! tera engine behind trusted declarations; the registry of what is
//! registered is the crate's own and fully specified.

use vstd::prelude::*;
use crate::Error;
use crate::git::{kv_get, pairs_view};
use crate::text::{chars_of, str_eq, string_of};

verus! {

/// The tera engine type, declared so values of it can be held.
#[verifier::external_type_specification]
#[verifier::external_body]
pub struct ExTera(tera::Tera);

/// The tera context type, declared so values of it can be held.
#[verifier::external_type_specification]
#[verifier::external_body]
pub struct ExContext(tera::Context);

/// The templates a tera engine holds, by name.
pub uninterp spec fn tera_sources(t: tera::Tera) -> Map<Seq<char>, Seq<char>>;

/// Whether the engine accepts a registration: parsing the content and
/// rebuilding the inheritance chains over the already-registered
/// sources is a function of those three things alone.
pub uninterp spec fn tera_accepts(
    sources: Map<Seq<char>, Seq<char>>,
    name: Seq<char>,
    content: Seq<char>,
) -> bool;

/// Relies on tera::Tera::default: a fresh engine with no templates
/// registered (only the built-in filters and testers).
#[verifier::external_body]
fn tera_new() -> (r: tera::Tera)
    ensures
        (tera_sources(r) =~= Map::<Seq<char>, Seq<char>>::empty()),
{
    tera::Tera::default()
}

/// Relies on tera::Tera::add_raw_template: parses the template and
/// registers it under the name, then rebuilds the inheritance chains —
/// acceptance is decided by the content, the name and the sources
/// already registered. A rejected registration carries the engine's
/// message back; a parse failure registers nothing, while a failure of
/// the chain rebuild can leave the parsed template registered.
#[verifier::external_body]
fn tera_add(t: &mut tera::Tera, name: &str, content: &str) -> (r: Result<(), String>)
    ensures
        r is Ok <==> tera_accepts(tera_sources(*old(t)), name@, content@),
        r is Ok ==> tera_sources(*final(t)) == tera_sources(*old(t)).insert(name@, content@),
        r is Err ==> tera_sources(*final(t)) == tera_sources(*old(t)) || tera_sources(*final(t))
            == tera_sources(*old(t)).insert(name@, content@),
{
    match t.add_raw_template(name, content) {
        Ok(()) => Ok(()),
        Err(e) => Err(e.to_string()),
    }
}

/// Relies on tera::Context::new: an empty context.
#[verifier::external_body]
fn context_new() -> tera::Context {
    tera::Context::new()
}

/// Relies on tera::Context::insert, which cannot fail for string
/// values.
#[verifier::external_body]
fn context_insert(c: &mut tera::Context, key: &str, value: &str) {
    c.insert(key, value);
}

/// Relies on tera::Tera::render: renders a registered template against
/// a context; failures carry the engine's message.
#[verifier::external_body]
fn tera_render(t: &tera::Tera, name: &str, c: &tera::Context) -> (r: Result<String, String>) {
    match t.render(name, c) {
        Ok(s) => Ok(s),
        Err(e) => Err(e.to_string()),
    }
}

/// The built-in skeleton in the style of a short context/decision/
/// consequences note.
pub open spec fn nygard_text() -> Seq<char> {
    "# {{ title }}\n\n## Status\n\n{{ status }}\n\n## Context\n\n{{ context | default(value=\"What is the issue that we're seeing that is motivating this decision or change?\") }}\n\n## Decision\n\n{{ decision | default(value=\"What is the change that we're proposing and/or doing?\") }}\n\n## Consequences\n\n{{ consequences | default(value=\"What becomes easier or more difficult to do because of this change?\") }}\n"@
}

/// The executable form of the same skeleton.
pub fn template_nygard() -> (r: &'static str)
    ensures
        r@ == nygard_text(),
{
    "# {{ title }}\n\n## Status\n\n{{ status }}\n\n## Context\n\n{{ context | default(value=\"What is the issue that we're seeing that is motivating this decision or change?\") }}\n\n## Decision\n\n{{ decision | default(value=\"What is the change that we're proposing and/or doing?\") }}\n\n## Consequences\n\n{{ consequences | default(value=\"What becomes easier or more difficult to do because of this change?\") }}\n"
}

/// The built-in skeleton with drivers, options and weighed outcomes.
pub open spec fn madr_text() -> Seq<char> {
    "# {{ title }}\n\n## Status\n\n{{ status }}\n\n{% if deciders %}\nDeciders: {{ deciders | join(sep=\", \") }}\n{% endif %}\n{% if date %}\nDate: {{ date }}\n{% endif %}\n\n## Context and Problem Statement\n\n{{ context | default(value=\"Describe the context and problem statement...\") }}\n\n## Decision Drivers\n\n{% for driver in decision_drivers | default(value=[]) %}\n* {{ driver }}\n{% else %}\n* Driver 1\n* Driver 2\n{% endfor %}\n\n## Considered Options\n\n{% for option in options | default(value=[]) %}\n* {{ option }}\n{% else %}\n* Option 1\n* Option 2\n{% endfor %}\n\n## Decision Outcome\n\nChosen option: \"{{ chosen_option | default(value=\"Option X\") }}\"\n\n### Consequences\n\n#### Good\n\n{% for item in good_consequences | default(value=[]) %}\n* {{ item }}\n{% else %}\n* Good consequence 1\n{% endfor %}\n\n#### Bad\n\n{% for item in bad_consequences | default(value=[]) %}\n* {{ item }}\n{% else %}\n* Bad consequence 1\n{% endfor %}\n\n## More Information\n\n{{ more_info | default(value=\"Additional information, links, references...\") }}\n"@
}

/// The executable form of the same skeleton.
pub fn template_madr() -> (r: &'static str)
    ensures
        r@ == madr_text(),
{
    "# {{ title }}\n\n## Status\n\n{{ status }}\n\n{% if deciders %}\nDeciders: {{ deciders | join(sep=\", \") }}\n{% endif %}\n{% if date %}\nDate: {{ date }}\n{% endif %}\n\n## Context and Problem Statement\n\n{{ context | default(value=\"Describe the context and problem statement...\") }}\n\n## Decision Drivers\n\n{% for driver in decision_drivers | default(value=[]) %}\n* {{ driver }}\n{% else %}\n* Driver 1\n* Driver 2\n{% endfor %}\n\n## Considered Options\n\n{% for option in options | default(value=[]) %}\n* {{ option }}\n{% else %}\n* Option 1\n* Option 2\n{% endfor %}\n\n## Decision Outcome\n\nChosen option: \"{{ chosen_option | default(value=\"Option X\") }}\"\n\n### Consequences\n\n#### Good\n\n{% for item in good_consequences | default(value=[]) %}\n* {{ item }}\n{% else %}\n* Good consequence 1\n{% endfor %}\n\n#### Bad\n\n{% for item in bad_consequences | default(value=[]) %}\n* {{ item }}\n{% else %}\n* Bad consequence 1\n{% endfor %}\n\n## More Information\n\n{{ more_info | default(value=\"Additional information, links, references...\") }}\n"
}

/// The built-in one-sentence decision skeleton.
pub open spec fn y_statement_text() -> Seq<char> {
    "# {{ title }}\n\n## Status\n\n{{ status }}\n\n## Decision\n\nIn the context of {{ context | default(value=\"<use case/user story>\") }},\nfacing {{ facing | default(value=\"<concern>\") }},\nwe decided for {{ decision | default(value=\"<option>\") }}\nand against {{ against | default(value=\"<other options>\") }},\nto achieve {{ achieve | default(value=\"<quality>\") }},\naccepting {{ accepting | default(value=\"<downside>\") }}.\n"@
}

/// The executable form of the same skeleton.
pub fn template_y_statement() -> (r: &'static str)
    ensures
        r@ == y_statement_text(),
{
    "# {{ title }}\n\n## Status\n\n{{ status }}\n\n## Decision\n\nIn the context of {{ context | default(value=\"<use case/user story>\") }},\nfacing {{ facing | default(value=\"<concern>\") }},\nwe decided for {{ decision | default(value=\"<option>\") }}\nand against {{ against | default(value=\"<other options>\") }},\nto achieve {{ achieve | default(value=\"<quality>\") }},\naccepting {{ accepting | default(value=\"<downside>\") }}.\n"
}

/// The built-in pattern-style skeleton with forces and a solution.
pub open spec fn alexandrian_text() -> Seq<char> {
    "# {{ title }}\n\n## Status\n\n{{ status }}\n\n## Prologue\n\n{{ prologue | default(value=\"Summary and context for this ADR\") }}\n\n## Problem Statement\n\n{{ problem | default(value=\"The problem or question being addressed\") }}\n\n## Forces\n\n{% for force in forces | default(value=[]) %}\n* {{ force }}\n{% else %}\n* Force 1: Description\n* Force 2: Description\n{% endfor %}\n\n## Solution\n\n{{ solution | default(value=\"The chosen solution\") }}\n\n## Consequences\n\n{{ consequences | default(value=\"Resulting context after applying the solution\") }}\n\n## Related Patterns\n\n{% for pattern in related | default(value=[]) %}\n* {{ pattern }}\n{% endfor %}\n"@
}

/// The executable form of the same skeleton.
pub fn template_alexandrian() -> (r: &'static str)
    ensures
        r@ == alexandrian_text(),
{
    "# {{ title }}\n\n## Status\n\n{{ status }}\n\n## Prologue\n\n{{ prologue | default(value=\"Summary and context for this ADR\") }}\n\n## Problem Statement\n\n{{ problem | default(value=\"The problem or question being addressed\") }}\n\n## Forces\n\n{% for force in forces | default(value=[]) %}\n* {{ force }}\n{% else %}\n* Force 1: Description\n* Force 2: Description\n{% endfor %}\n\n## Solution\n\n{{ solution | default(value=\"The chosen solution\") }}\n\n## Consequences\n\n{{ consequences | default(value=\"Resulting context after applying the solution\") }}\n\n## Related Patterns\n\n{% for pattern in related | default(value=[]) %}\n* {{ pattern }}\n{% endfor %}\n"
}

/// The built-in skeleton with costs, benefits, risks and metrics.
pub open spec fn business_case_text() -> Seq<char> {
    "# {{ title }}\n\n## Status\n\n{{ status }}\n\n## Executive Summary\n\n{{ executive_summary | default(value=\"Brief overview of the decision and its impact\") }}\n\n## Background\n\n{{ background | default(value=\"Context and history leading to this decision\") }}\n\n## Problem Statement\n\n{{ problem | default(value=\"The business problem being addressed\") }}\n\n## Proposed Solution\n\n{{ solution | default(value=\"Recommended approach\") }}\n\n## Alternatives Considered\n\n{% for alt in alternatives | default(value=[]) %}\n### {{ alt.name }}\n{{ alt.description }}\n{% else %}\n### Alternative 1\nDescription of alternative approach\n{% endfor %}\n\n## Cost-Benefit Analysis\n\n### Costs\n{% for cost in costs | default(value=[]) %}\n* {{ cost }}\n{% else %}\n* Implementation cost\n* Maintenance cost\n{% endfor %}\n\n### Benefits\n{% for benefit in benefits | default(value=[]) %}\n* {{ benefit }}\n{% else %}\n* Benefit 1\n* Benefit 2\n{% endfor %}\n\n## Risk Assessment\n\n{% for risk in risks | default(value=[]) %}\n* {{ risk }}\n{% else %}\n* Risk 1: Mitigation strategy\n{% endfor %}\n\n## Implementation Plan\n\n{{ implementation | default(value=\"High-level implementation approach\") }}\n\n## Success Metrics\n\n{% for metric in metrics | default(value=[]) %}\n* {{ metric }}\n{% else %}\n* Metric 1\n{% endfor %}\n"@
}

/// The executable form of the same skeleton.
pub fn template_business_case() -> (r: &'static str)
    ensures
        r@ == business_case_text(),
{
    "# {{ title }}\n\n## Status\n\n{{ status }}\n\n## Executive Summary\n\n{{ executive_summary | default(value=\"Brief overview of the decision and its impact\") }}\n\n## Background\n\n{{ background | default(value=\"Context and history leading to this decision\") }}\n\n## Problem Statement\n\n{{ problem | default(value=\"The business problem being addressed\") }}\n\n## Proposed Solution\n\n{{ solution | default(value=\"Recommended approach\") }}\n\n## Alternatives Considered\n\n{% for alt in alternatives | default(value=[]) %}\n### {{ alt.name }}\n{{ alt.description }}\n{% else %}\n### Alternative 1\nDescription of alternative approach\n{% endfor %}\n\n## Cost-Benefit Analysis\n\n### Costs\n{% for cost in costs | default(value=[]) %}\n* {{ cost }}\n{% else %}\n* Implementation cost\n* Maintenance cost\n{% endfor %}\n\n### Benefits\n{% for benefit in benefits | default(value=[]) %}\n* {{ benefit }}\n{% else %}\n* Benefit 1\n* Benefit 2\n{% endfor %}\n\n## Risk Assessment\n\n{% for risk in risks | default(value=[]) %}\n* {{ risk }}\n{% else %}\n* Risk 1: Mitigation strategy\n{% endfor %}\n\n## Implementation Plan\n\n{{ implementation | default(value=\"High-level implementation approach\") }}\n\n## Success Metrics\n\n{% for metric in metrics | default(value=[]) %}\n* {{ metric }}\n{% else %}\n* Metric 1\n{% endfor %}\n"
}

/// The engine: the tera instance, and the crate's own registry of what
/// was registered, kept alongside it.
pub struct TemplateEngine {
    tera: tera::Tera,
    sources: Vec<(String, String)>,
}

/// The names the five built-in skeletons are registered under.
pub open spec fn builtin_names() -> Seq<Seq<char>> {
    seq!["nygard"@, "madr"@, "y-statement"@, "alexandrian"@, "business-case"@]
}

/// The source of a built-in skeleton, by name.
pub open spec fn builtin_source(name: Seq<char>) -> Option<Seq<char>> {
    if name == "nygard"@ {
        Some(nygard_text())
    } else if name == "madr"@ {
        Some(madr_text())
    } else if name == "y-statement"@ {
        Some(y_statement_text())
    } else if name == "alexandrian"@ {
        Some(alexandrian_text())
    } else if name == "business-case"@ {
        Some(business_case_text())
    } else {
        None
    }
}

impl TemplateEngine {
    /// The registered templates, name to source, in registration order.
    pub closed spec fn registered(&self) -> Seq<(Seq<char>, Seq<char>)> {
        pairs_view(self.sources@)
    }

    /// The templates the underlying engine holds.
    pub closed spec fn engine_sources(&self) -> Map<Seq<char>, Seq<char>> {
        tera_sources(self.tera)
    }

    /// A fresh engine holding the five built-in skeletons.
    pub fn new() -> (r: TemplateEngine)
        ensures
            r.registered().len() == 5,
            forall|i: int| 0 <= i < 5 ==> (#[trigger] r.registered()[i]).0 == builtin_names()[i],
    {
        let mut tera = tera_new();
        let mut sources: Vec<(String, String)> = Vec::new();
        let _ = tera_add(&mut tera, "nygard", template_nygard());
        sources.push((String::from_str("nygard"), String::from_str(template_nygard())));
        let _ = tera_add(&mut tera, "madr", template_madr());
        sources.push((String::from_str("madr"), String::from_str(template_madr())));
        let _ = tera_add(&mut tera, "y-statement", template_y_statement());
        sources.push(
            (String::from_str("y-statement"), String::from_str(template_y_statement())),
        );
        let _ = tera_add(&mut tera, "alexandrian", template_alexandrian());
        sources.push(
            (String::from_str("alexandrian"), String::from_str(template_alexandrian())),
        );
        let _ = tera_add(&mut tera, "business-case", template_business_case());
        sources.push(
            (String::from_str("business-case"), String::from_str(template_business_case())),
        );
        let r = TemplateEngine { tera, sources };
        proof {
            assert(r.registered().len() == 5);
            assert(forall|i: int|
                0 <= i < 5 ==> (#[trigger] r.registered()[i]).0 == builtin_names()[i]);
        }
        r
    }

    /// Register a caller-supplied template. A template the engine's
    /// grammar rejects is a typed error at registration, not at render
    /// time; registration succeeds exactly when the engine accepts the
    /// content over what is already registered.
    pub fn add_template(&mut self, name: &str, content: &str) -> (r: Result<(), Error>)
        ensures
            r is Ok <==> tera_accepts(old(self).engine_sources(), name@, content@),
            match r {
                Ok(()) => final(self).registered() == old(self).registered().push(
                    (name@, content@),
                ) && final(self).engine_sources() == old(self).engine_sources().insert(
                    name@,
                    content@,
                ),
                Err(e) => e is TemplateError && final(self).registered() == old(self).registered(),
            },
    {
        match tera_add(&mut self.tera, name, content) {
            Ok(()) => {
                let ghost pre = self.registered();
                self.sources.push((String::from_str(name), String::from_str(content)));
                proof {
                    assert(self.registered() =~~= pre.push((name@, content@)));
                }
                Ok(())
            },
            Err(msg) => Err(Error::TemplateError { message: msg }),
        }
    }

    /// Whether a template of this name is registered.
    pub fn has_template(&self, name: &str) -> (r: bool)
        ensures
            r == (kv_get(self.registered(), name@) is Some),
    {
        let mut i: usize = 0;
        proof {
            assert(self.registered().skip(0) =~= self.registered());
        }
        while i < self.sources.len()
            invariant
                i <= self.sources@.len(),
                kv_get(self.registered(), name@) == kv_get(
                    self.registered().skip(i as int),
                    name@,
                ),
            decreases self.sources@.len() - i,
        {
            proof {
                assert(self.registered().skip(i as int)[0] == (
                    self.sources@[i as int].0@,
                    self.sources@[i as int].1@,
                ));
                assert(self.registered().skip(i as int).skip(1) =~= self.registered().skip(i + 1));
            }
            if str_eq(self.sources[i].0.as_str(), name) {
                return true;
            }
            i = i + 1;
        }
        proof {
            assert(self.registered().skip(self.sources@.len() as int) =~= Seq::<
                (Seq<char>, Seq<char>),
            >::empty());
        }
        false
    }

    /// The names of the registered templates, in registration order.
    pub fn list_templates(&self) -> (r: Vec<String>)
        ensures
            r@.len() == self.registered().len(),
            forall|i: int| 0 <= i < r@.len() ==> (#[trigger] r@[i])@ == self.registered()[i].0,
    {
        let mut r: Vec<String> = Vec::new();
        let mut i: usize = 0;
        while i < self.sources.len()
            invariant
                i <= self.sources@.len(),
                r@.len() == i,
                forall|j: int| 0 <= j < i ==> (#[trigger] r@[j])@ == self.registered()[j].0,
            decreases self.sources@.len() - i,
        {
            r.push(self.sources[i].0.clone());
            i = i + 1;
        }
        r
    }

    /// The source of a built-in template; other names, registered or
    /// not, are reported as not found.
    pub fn get_template(&self, name: &str) -> (r: Result<String, Error>)
        ensures
            match r {
                Ok(s) => builtin_source(name@) == Some(s@),
                Err(e) => builtin_source(name@) is None && e is TemplateNotFound,
            },
    {
        let src: Option<&'static str> = if str_eq(name, "nygard") {
            Some(template_nygard())
        } else if str_eq(name, "madr") {
            Some(template_madr())
        } else if str_eq(name, "y-statement") {
            Some(template_y_statement())
        } else if str_eq(name, "alexandrian") {
            Some(template_alexandrian())
        } else if str_eq(name, "business-case") {
            Some(template_business_case())
        } else {
            None
        };
        match src {
            Some(s) => Ok(String::from_str(s)),
            None => Err(Error::TemplateNotFound { name: String::from_str(name) }),
        }
    }

    /// Render a registered template against a string-keyed context.
    /// An unregistered name is the typed not-found error; a rendering
    /// failure inside the engine is a template error.
    pub fn render(&self, template: &str, context: &Vec<(String, String)>) -> (r: Result<
        String,
        Error,
    >)
        ensures
            r matches Err(e) && e is TemplateNotFound <==> kv_get(
                self.registered(),
                template@,
            ) is None,
            r matches Err(e) ==> e is TemplateNotFound || e is TemplateError,
    {
        if !self.has_template(template) {
            return Err(Error::TemplateNotFound { name: String::from_str(template) });
        }
        let mut ctx = context_new();
        let mut i: usize = 0;
        while i < context.len()
            decreases context@.len() - i,
        {
            context_insert(&mut ctx, context[i].0.as_str(), context[i].1.as_str());
            i = i + 1;
        }
        match tera_render(&self.tera, template, &ctx) {
            Ok(s) => Ok(s),
            Err(msg) => Err(Error::TemplateError { message: msg }),
        }
    }
}

} // verus!