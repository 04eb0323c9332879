//! The script compiler: from the text of scripts to an engine.
use crate::builder::is_engine_of;
use crate::builder::reports;
use crate::builder::ResponseEngineCompiler;
use crate::compiler::error_views;
use crate::compiler::CompileError;
use crate::engine::EngineCriterion;
use crate::engine::ResponseEngine;
use crate::name::Name;
use crate::parser::definition_wf;
use crate::parser::lemma_maybe_definition_at;
use crate::parser::maybe_definition_at;
use crate::parser::Found;
use crate::parser::Parser;
use crate::props::updated;
use crate::syntax::CriterionView;
use crate::syntax::Definition;
use crate::syntax::DefinitionView;
use crate::syntax::Flaw;
use crate::syntax::Location;
use crate::syntax::ParseError;
use crate::syntax::ResponseGroupView;
use crate::syntax::RuleView;
use crate::syntax::Span;
use crate::syntax::Spanned;
use crate::table::lemma_viewed_updated;
use crate::table::viewed;
use crate::table::Table;
use vstd::prelude::*;
use vstd::string::StrSliceExecFns;
use vstd::string::StringSliceAdditionalSpecFns;

verus! {

/// What the modules of a script define, and where.
pub struct Gathered {
    pub criteria: Seq<(Seq<u8>, CriterionView)>,
    pub rules: Seq<(Seq<u8>, RuleView)>,
    pub groups: Seq<(Seq<u8>, ResponseGroupView)>,
    pub criterion_locations: Seq<(Seq<u8>, Location)>,
    pub rule_locations: Seq<(Seq<u8>, Location)>,
    pub group_locations: Seq<(Seq<u8>, Location)>,
}

/// Nothing defined.
pub open spec fn nothing_gathered() -> Gathered {
    Gathered {
        criteria: Seq::<(Seq<u8>, CriterionView)>::empty(),
        rules: Seq::<(Seq<u8>, RuleView)>::empty(),
        groups: Seq::<(Seq<u8>, ResponseGroupView)>::empty(),
        criterion_locations: Seq::<(Seq<u8>, Location)>::empty(),
        rule_locations: Seq::<(Seq<u8>, Location)>::empty(),
        group_locations: Seq::<(Seq<u8>, Location)>::empty(),
    }
}

/// What is defined after one more definition was found in module `file`:
/// the definition stands under its name, in place of an earlier one of the
/// same kind and name, and so does its place.
pub open spec fn gather_one(so_far: Gathered, found: Found, file: usize) -> Gathered {
    let location = Location {
        file_id: file,
        span: Span { start: found.start as usize, end: found.end as usize },
    };
    match found.definition {
        DefinitionView::Criterion { name, criterion } => Gathered {
            criteria: updated(so_far.criteria, name, criterion),
            criterion_locations: updated(so_far.criterion_locations, name, location),
            ..so_far
        },
        DefinitionView::Rule { name, rule } => Gathered {
            rules: updated(so_far.rules, name, rule),
            rule_locations: updated(so_far.rule_locations, name, location),
            ..so_far
        },
        DefinitionView::ResponseGroup { name, response_group } => Gathered {
            groups: updated(so_far.groups, name, response_group),
            group_locations: updated(so_far.group_locations, name, location),
            ..so_far
        },
    }
}

/// What is defined after a module was parsed from a place on, and the flaw
/// at which parsing stopped, if it did.
pub open spec fn module_gathered(s: Seq<u8>, pos: int, file: usize, so_far: Gathered) -> (
    Gathered,
    Option<Flaw>,
)
    decreases s.len() - pos,
    when 0 <= pos <= s.len()
{
    match maybe_definition_at(s, pos) {
        Ok(None) => (so_far, None),
        Err(flaw) => (so_far, Some(flaw)),
        Ok(Some(found)) => {
            proof {
                lemma_maybe_definition_at(s, pos);
            }
            module_gathered(s, found.end, file, gather_one(so_far, found, file))
        },
    }
}

/// What is defined after the first `n` modules were parsed, and the flaws
/// at which parsing stopped, each with the place of its module.
pub open spec fn all_gathered(files: Seq<(Name, Vec<u8>)>, n: int) -> (Gathered, Seq<(usize, Flaw)>)
    decreases n,
{
    if n <= 0 || n > files.len() {
        (nothing_gathered(), Seq::<(usize, Flaw)>::empty())
    } else {
        let before = all_gathered(files, n - 1);
        let module = module_gathered(files[n - 1].1@, 0, (n - 1) as usize, before.0);
        (
            module.0,
            match module.1 {
                Some(flaw) => before.1.push(((n - 1) as usize, flaw)),
                None => before.1,
            },
        )
    }
}

/// What a script compilation has to report.
#[derive(Debug)]
pub struct ScriptReport {
    pub compile_errors: Vec<CompileError>,
    /// The flaws at which parsing stopped, each with the place of its
    /// module.
    pub parse_errors: Vec<(usize, Spanned<ParseError>)>,
    /// The modules: their names and their texts.
    pub files: Vec<(Name, Vec<u8>)>,
    pub criterion_locations: Table<Location>,
    pub rule_locations: Table<Location>,
    pub response_group_locations: Table<Location>,
}

/// The flaws of a list of parse errors.
pub open spec fn flaw_views(errors: Seq<(usize, Spanned<ParseError>)>) -> Seq<(usize, Flaw)> {
    Seq::new(errors.len(), |i: int| (errors[i].0, errors[i].1@))
}

/// What a compiler and three tables of places hold, as what was gathered.
pub open spec fn held(
    compiler: ResponseEngineCompiler,
    criterion_locations: Table<Location>,
    rule_locations: Table<Location>,
    response_group_locations: Table<Location>,
) -> Gathered {
    Gathered {
        criteria: viewed(compiler.criteria@),
        rules: viewed(compiler.rules@),
        groups: viewed(compiler.response_groups@),
        criterion_locations: criterion_locations@,
        rule_locations: rule_locations@,
        group_locations: response_group_locations@,
    }
}

/// The table of the first `n` partition variables.
pub open spec fn variables(names: Seq<Name>, n: int) -> Seq<(Seq<u8>, ())>
    decreases n,
{
    if n <= 0 || n > names.len() {
        Seq::<(Seq<u8>, ())>::empty()
    } else {
        updated(variables(names, n - 1), names[n - 1]@, ())
    }
}

/// Hands a definition to a compiler and notes where it stands.
pub fn gather(
    definition: Definition,
    span: Span,
    file: usize,
    compiler: &mut ResponseEngineCompiler,
    criterion_locations: &mut Table<Location>,
    rule_locations: &mut Table<Location>,
    response_group_locations: &mut Table<Location>,
)
    requires
        old(compiler).wf(),
        old(criterion_locations).wf(),
        old(rule_locations).wf(),
        old(response_group_locations).wf(),
        definition_wf(definition),
    ensures
        final(compiler).wf(),
        final(criterion_locations).wf(),
        final(rule_locations).wf(),
        final(response_group_locations).wf(),
        final(compiler).partition_variables == old(compiler).partition_variables,
        held(
            *final(compiler),
            *final(criterion_locations),
            *final(rule_locations),
            *final(response_group_locations),
        ) == gather_one(
            held(
                *old(compiler),
                *old(criterion_locations),
                *old(rule_locations),
                *old(response_group_locations),
            ),
            Found { definition: definition@, start: span.start as int, end: span.end as int },
            file,
        ),
{
    let ghost criteria = compiler.criteria@;
    let ghost rules = compiler.rules@;
    let ghost groups = compiler.response_groups@;
    let location = Location { file_id: file, span };
    match definition {
        Definition::Criterion { name, criterion } => {
            proof {
                lemma_viewed_updated(criteria, name@, criterion);
            }
            criterion_locations.insert(name.duplicate(), location);
            compiler.with_criterion(name, criterion);
        },
        Definition::Rule { name, rule } => {
            proof {
                lemma_viewed_updated(rules, name@, rule);
            }
            rule_locations.insert(name.duplicate(), location);
            compiler.with_rule(name, rule);
        },
        Definition::ResponseGroup { name, response_group } => {
            proof {
                lemma_viewed_updated(groups, name@, response_group);
            }
            response_group_locations.insert(name.duplicate(), location);
            compiler.with_response_group(name, response_group);
        },
    }
}

/// Parses a module and hands its definitions to a compiler, up to the end
/// of the module or the first flaw, which is then given back.
pub fn parse_module(
    src: &[u8],
    file: usize,
    compiler: &mut ResponseEngineCompiler,
    criterion_locations: &mut Table<Location>,
    rule_locations: &mut Table<Location>,
    response_group_locations: &mut Table<Location>,
) -> (r: Option<Spanned<ParseError>>)
    requires
        old(compiler).wf(),
        old(criterion_locations).wf(),
        old(rule_locations).wf(),
        old(response_group_locations).wf(),
    ensures
        final(compiler).wf(),
        final(criterion_locations).wf(),
        final(rule_locations).wf(),
        final(response_group_locations).wf(),
        final(compiler).partition_variables == old(compiler).partition_variables,
        (
            held(
                *final(compiler),
                *final(criterion_locations),
                *final(rule_locations),
                *final(response_group_locations),
            ),
            match r {
                Some(e) => Some(e@),
                None => None,
            },
        ) == module_gathered(
            src@,
            0,
            file,
            held(
                *old(compiler),
                *old(criterion_locations),
                *old(rule_locations),
                *old(response_group_locations),
            ),
        ),
{
    let ghost start = held(
        *compiler,
        *criterion_locations,
        *rule_locations,
        *response_group_locations,
    );
    let mut parser = Parser::from_bytes(src);
    loop
        invariant
            parser.wf(),
            parser.src@ == src@,
            compiler.wf(),
            criterion_locations.wf(),
            rule_locations.wf(),
            response_group_locations.wf(),
            compiler.partition_variables == old(compiler).partition_variables,
            start == held(
                *old(compiler),
                *old(criterion_locations),
                *old(rule_locations),
                *old(response_group_locations),
            ),
            module_gathered(src@, 0, file, start) == module_gathered(
                src@,
                parser.pos as int,
                file,
                held(*compiler, *criterion_locations, *rule_locations, *response_group_locations),
            ),
        decreases src@.len() - parser.pos,
    {
        let ghost at = parser.pos as int;
        let ghost now = held(
            *compiler,
            *criterion_locations,
            *rule_locations,
            *response_group_locations,
        );
        match parser.maybe_parse_definition() {
            Err(e) => {
                assert(module_gathered(src@, at, file, now) == (now, Some(e@)));
                return Some(e);
            },
            Ok(None) => {
                assert(module_gathered(src@, at, file, now) == (now, None::<Flaw>));
                return None;
            },
            Ok(Some(parsed)) => {
                assert(module_gathered(src@, at, file, now) == module_gathered(
                    src@,
                    parser.pos as int,
                    file,
                    gather_one(
                        now,
                        Found {
                            definition: parsed.0@,
                            start: parsed.1.start as int,
                            end: parsed.1.end as int,
                        },
                        file,
                    ),
                ));
                gather(
                    parsed.0,
                    parsed.1,
                    file,
                    compiler,
                    criterion_locations,
                    rule_locations,
                    response_group_locations,
                );
            },
        }
    }
}

/// Compiles scripts, module by module, into an engine.
#[derive(Debug)]
pub struct ScriptCompiler {
    pub partition_variables: Vec<Name>,
    /// The modules: their names and their texts.
    pub files: Vec<(Name, Vec<u8>)>,
}

/// What compiling the definitions of a compiler gives: the engine, if and
/// only if there is no error, and the errors.
pub open spec fn finished(
    compiler: ResponseEngineCompiler,
    engine: Option<ResponseEngine>,
    errors: Seq<CompileError>,
) -> bool {
    &&& engine.is_some() <==> errors.len() == 0
    &&& exists|all: Seq<EngineCriterion>| #[trigger] reports(compiler, all, error_views(errors))
    &&& engine.is_some() ==> engine.unwrap().wf()
    &&& engine.is_some() ==> exists|places: Seq<(int, int)>|
        #[trigger] is_engine_of(engine.unwrap(), compiler, places)
}

/// A compiler holds the definitions that were gathered and the given
/// partition variables.
pub open spec fn compiles_from(
    compiler: ResponseEngineCompiler,
    gathered: Gathered,
    partition_variables: Seq<Name>,
) -> bool {
    &&& compiler.wf()
    &&& viewed(compiler.criteria@) == gathered.criteria
    &&& viewed(compiler.rules@) == gathered.rules
    &&& viewed(compiler.response_groups@) == gathered.groups
    &&& compiler.partition_variables@ == variables(
        partition_variables,
        partition_variables.len() as int,
    )
}

impl ScriptCompiler {
    /// A script compiler without modules.
    pub fn new() -> (r: ScriptCompiler)
        ensures
            r.partition_variables@.len() == 0,
            r.files@.len() == 0,
    {
        ScriptCompiler { partition_variables: Vec::new(), files: Vec::new() }
    }

    /// Adds a module: a name for it and its text.
    pub fn add_module(&mut self, name: &str, source: &str)
        ensures
            final(self).partition_variables == old(self).partition_variables,
            final(self).files@.len() == old(self).files@.len() + 1,
            forall|i: int|
                0 <= i < old(self).files@.len() ==> #[trigger] final(self).files@[i]
                    == old(self).files@[i],
            final(self).files@[old(self).files@.len() as int].0@ == name.spec_bytes(),
            final(self).files@[old(self).files@.len() as int].1@ == source.spec_bytes(),
    {
        self.files.push((Name::new(name), source.as_bytes_vec()));
    }

    /// The script compiler with a module added.
    pub fn with_module(self, name: &str, source: &str) -> (r: ScriptCompiler)
        ensures
            r.partition_variables == self.partition_variables,
            r.files@.len() == self.files@.len() + 1,
            forall|i: int| 0 <= i < self.files@.len() ==> #[trigger] r.files@[i] == self.files@[i],
            r.files@[self.files@.len() as int].0@ == name.spec_bytes(),
            r.files@[self.files@.len() as int].1@ == source.spec_bytes(),
    {
        let mut compiler = self;
        compiler.add_module(name, source);
        compiler
    }

    /// Declares a variable by which rules may be partitioned.
    pub fn add_partition_variable(&mut self, variable: &str)
        ensures
            final(self).files == old(self).files,
            final(self).partition_variables@.len() == old(self).partition_variables@.len() + 1,
            forall|i: int|
                0 <= i < old(self).partition_variables@.len()
                    ==> #[trigger] final(self).partition_variables@[i]
                    == old(self).partition_variables@[i],
            final(self).partition_variables@[old(self).partition_variables@.len() as int]@
                == variable.spec_bytes(),
    {
        self.partition_variables.push(Name::new(variable));
    }

    /// The script compiler with a partition variable declared.
    pub fn with_partition_variable(self, variable: &str) -> (r: ScriptCompiler)
        ensures
            r.files == self.files,
            r.partition_variables@.len() == self.partition_variables@.len() + 1,
            forall|i: int|
                0 <= i < self.partition_variables@.len() ==> #[trigger] r.partition_variables@[i]
                    == self.partition_variables@[i],
            r.partition_variables@[self.partition_variables@.len() as int]@
                == variable.spec_bytes(),
    {
        let mut compiler = self;
        compiler.add_partition_variable(variable);
        compiler
    }

    /// Parses the modules and compiles what they define. Where a module has
    /// a flaw, nothing is compiled; else the engine is given if and only if
    /// the definitions compile without error.
    pub fn compile(self) -> (r: (Option<ResponseEngine>, ScriptReport))
        ensures
            r.1.files == self.files,
            r.1.criterion_locations.wf(),
            r.1.rule_locations.wf(),
            r.1.response_group_locations.wf(),
            flaw_views(r.1.parse_errors@) == all_gathered(self.files@, self.files@.len() as int).1,
            r.1.criterion_locations@ == all_gathered(
                self.files@,
                self.files@.len() as int,
            ).0.criterion_locations,
            r.1.rule_locations@ == all_gathered(
                self.files@,
                self.files@.len() as int,
            ).0.rule_locations,
            r.1.response_group_locations@ == all_gathered(
                self.files@,
                self.files@.len() as int,
            ).0.group_locations,
            r.1.parse_errors@.len() > 0 ==> r.0.is_none() && r.1.compile_errors@.len() == 0,
            r.1.parse_errors@.len() == 0 ==> exists|compiler: ResponseEngineCompiler|
                #[trigger] compiles_from(
                    compiler,
                    all_gathered(self.files@, self.files@.len() as int).0,
                    self.partition_variables@,
                ) && finished(compiler, r.0, r.1.compile_errors@),
            r.0.is_some() ==> r.0.unwrap().wf(),
    {
        let mut compiler = ResponseEngineCompiler::new();
        let mut parse_errors: Vec<(usize, Spanned<ParseError>)> = Vec::new();
        let mut criterion_locations: Table<Location> = Table::new();
        let mut rule_locations: Table<Location> = Table::new();
        let mut response_group_locations: Table<Location> = Table::new();
        let ghost files = self.files@;
        let mut i: usize = 0;
        proof {
            assert(held(compiler, criterion_locations, rule_locations, response_group_locations)
                == nothing_gathered()) by {
                assert(viewed(compiler.criteria@) =~= nothing_gathered().criteria);
                assert(viewed(compiler.rules@) =~= nothing_gathered().rules);
                assert(viewed(compiler.response_groups@) =~= nothing_gathered().groups);
                assert(criterion_locations@ =~= nothing_gathered().criterion_locations);
                assert(rule_locations@ =~= nothing_gathered().rule_locations);
                assert(response_group_locations@ =~= nothing_gathered().group_locations);
            }
            assert(flaw_views(parse_errors@) =~= all_gathered(files, 0).1);
            assert(compiler.partition_variables@ =~= variables(self.partition_variables@, 0));
        }
        while i < self.files.len()
            invariant
                i <= self.files@.len(),
                files == self.files@,
                compiler.wf(),
                criterion_locations.wf(),
                rule_locations.wf(),
                response_group_locations.wf(),
                compiler.partition_variables@ == variables(self.partition_variables@, 0),
                held(compiler, criterion_locations, rule_locations, response_group_locations)
                    == all_gathered(files, i as int).0,
                flaw_views(parse_errors@) == all_gathered(files, i as int).1,
            decreases self.files@.len() - i,
        {
            let ghost flaws = flaw_views(parse_errors@);
            let stopped = parse_module(
                self.files[i].1.as_slice(),
                i,
                &mut compiler,
                &mut criterion_locations,
                &mut rule_locations,
                &mut response_group_locations,
            );
            match stopped {
                Some(error) => {
                    let ghost flaw = error@;
                    parse_errors.push((i, error));
                    assert(flaw_views(parse_errors@) =~= flaws.push((i, flaw)));
                },
                None => {},
            }
            i += 1;
        }
        if parse_errors.len() > 0 {
            let report = ScriptReport {
                compile_errors: Vec::new(),
                parse_errors,
                files: self.files,
                criterion_locations,
                rule_locations,
                response_group_locations,
            };
            return (None, report);
        }
        let mut k: usize = 0;
        while k < self.partition_variables.len()
            invariant
                k <= self.partition_variables@.len(),
                files == self.files@,
                compiler.wf(),
                compiler.partition_variables@ == variables(self.partition_variables@, k as int),
                held(compiler, criterion_locations, rule_locations, response_group_locations)
                    == all_gathered(files, files.len() as int).0,
            decreases self.partition_variables@.len() - k,
        {
            compiler.with_partition_variable(self.partition_variables[k].duplicate());
            k += 1;
        }
        let ghost ready = compiler;
        assert(compiles_from(
            ready,
            all_gathered(files, files.len() as int).0,
            self.partition_variables@,
        ));
        let done = compiler.finish();
        let engine = done.0;
        let report = ScriptReport {
            compile_errors: done.1.errors,
            parse_errors,
            files: self.files,
            criterion_locations,
            rule_locations,
            response_group_locations,
        };
        assert(finished(ready, engine, report.compile_errors@));
        (engine, report)
    }
}

} // verus!
