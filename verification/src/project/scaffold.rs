//! The files and directories of a new project.
use vstd::prelude::*;

use super::InitOptions;

verus! {

/// One step of laying out a new project; paths are relative to its root.
#[derive(Debug, Clone)]
pub enum ScaffoldStep {
    /// Create this directory, with its parents.
    Dir(String),
    /// Write this file with this text.
    File(String, String),
    /// Write the configuration to `.knowledgebase/config.yaml`.
    Config,
}

/// The mathematical value of a step.
pub enum StepSpec {
    Dir(Seq<char>),
    File(Seq<char>, Seq<char>),
    Config,
}

impl View for ScaffoldStep {
    type V = StepSpec;

    open spec fn view(&self) -> StepSpec {
        match self {
            ScaffoldStep::Dir(p) => StepSpec::Dir(p@),
            ScaffoldStep::File(p, t) => StepSpec::File(p@, t@),
            ScaffoldStep::Config => StepSpec::Config,
        }
    }
}

/// The README of a new project.
pub open spec fn readme_text() -> Seq<char> {
    "# Knowledge Base\n\nA dependency-aware knowledge graph managed by Ex Grapha.\n"@
}

/// The `.gitignore` of a new project.
pub open spec fn gitignore_text() -> Seq<char> {
    "# Node positions (local display preference, not shared)\n.positions.json\n"@
}

/// The git pre-commit hook of a new project.
pub open spec fn hook_text() -> Seq<char> {
    "#!/bin/sh\n# Pre-commit hook: validate knowledge base integrity.\n# Requires the ex-grapha CLI (will be available after Issue #5).\n# ex-grapha validate .\necho \"Knowledge base validation hook (not yet implemented)\"\n"@
}

/// The CI workflow of a new project.
pub open spec fn workflow_text() -> Seq<char> {
    "name: Validate Knowledge Base\n\non: [pull_request]\n\njobs:\n  validate:\n    runs-on: ubuntu-latest\n    steps:\n      - uses: actions/checkout@v4\n      - name: Validate\n        run: echo \"Validation not yet implemented\"\n"@
}

/// The steps that lay out a project: the `nodes/`, `assets/` and
/// `.knowledgebase/` directories, the configuration, a README and a
/// `.gitignore`; then the git hook and the CI workflow when asked for.
pub open spec fn scaffold_spec(o: InitOptions) -> Seq<StepSpec> {
    seq![
        StepSpec::Dir("nodes"@),
        StepSpec::Dir("assets"@),
        StepSpec::Dir(".knowledgebase"@),
        StepSpec::Config,
        StepSpec::File("README.md"@, readme_text()),
        StepSpec::File(".gitignore"@, gitignore_text()),
    ] + (if o.include_git_hook {
        seq![
            StepSpec::Dir(".knowledgebase/hooks"@),
            StepSpec::File(".knowledgebase/hooks/validate.sh"@, hook_text()),
        ]
    } else {
        Seq::empty()
    }) + (if o.include_github_workflow {
        seq![
            StepSpec::Dir(".github/workflows"@),
            StepSpec::File(".github/workflows/validate.yaml"@, workflow_text()),
        ]
    } else {
        Seq::empty()
    })
}

/// The values of a sequence of steps.
pub open spec fn steps_view(v: Seq<ScaffoldStep>) -> Seq<StepSpec> {
    v.map_values(|s: ScaffoldStep| s@)
}

fn push_step(v: &mut Vec<ScaffoldStep>, s: ScaffoldStep)
    ensures
        steps_view(final(v)@) == steps_view(old(v)@).push(s@),
{
    let ghost v0 = v@;
    v.push(s);
    assert(steps_view(v@) =~= steps_view(v0).push(s@));
}

/// The steps that lay out a new project with `options`, in order.
pub fn scaffold(options: &InitOptions) -> (r: Vec<ScaffoldStep>)
    ensures
        steps_view(r@) == scaffold_spec(*options),
{
    let mut v: Vec<ScaffoldStep> = Vec::new();
    push_step(&mut v, ScaffoldStep::Dir(String::from_str("nodes")));
    push_step(&mut v, ScaffoldStep::Dir(String::from_str("assets")));
    push_step(&mut v, ScaffoldStep::Dir(String::from_str(".knowledgebase")));
    push_step(&mut v, ScaffoldStep::Config);
    push_step(
        &mut v,
        ScaffoldStep::File(
            String::from_str("README.md"),
            String::from_str(
                "# Knowledge Base\n\nA dependency-aware knowledge graph managed by Ex Grapha.\n",
            ),
        ),
    );
    push_step(
        &mut v,
        ScaffoldStep::File(
            String::from_str(".gitignore"),
            String::from_str(
                "# Node positions (local display preference, not shared)\n.positions.json\n",
            ),
        ),
    );
    let ghost base = steps_view(v@);
    if options.include_git_hook {
        push_step(&mut v, ScaffoldStep::Dir(String::from_str(".knowledgebase/hooks")));
        push_step(
            &mut v,
            ScaffoldStep::File(
                String::from_str(".knowledgebase/hooks/validate.sh"),
                String::from_str(
                    "#!/bin/sh\n# Pre-commit hook: validate knowledge base integrity.\n# Requires the ex-grapha CLI (will be available after Issue #5).\n# ex-grapha validate .\necho \"Knowledge base validation hook (not yet implemented)\"\n",
                ),
            ),
        );
    }
    let ghost mid = steps_view(v@);
    if options.include_github_workflow {
        push_step(&mut v, ScaffoldStep::Dir(String::from_str(".github/workflows")));
        push_step(
            &mut v,
            ScaffoldStep::File(
                String::from_str(".github/workflows/validate.yaml"),
                String::from_str(
                    "name: Validate Knowledge Base\n\non: [pull_request]\n\njobs:\n  validate:\n    runs-on: ubuntu-latest\n    steps:\n      - uses: actions/checkout@v4\n      - name: Validate\n        run: echo \"Validation not yet implemented\"\n",
                ),
            ),
        );
    }
    assert(steps_view(v@) =~= scaffold_spec(*options));
    v
}

} // verus!
