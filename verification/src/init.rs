//! What `init!` generates: for each binding, a chain of providers that
//! import the listed modules one more at a time, ending in the provider that
//! holds them all.
use vstd::prelude::*;
use crate::model::views;
use crate::naming::{join, decimal, with_number};
use crate::types::{add_unique, collect_lifetimes_from_type, lemma_add_unique_concat, type_lifetimes, TypeShape};

verus! {

/// One `let [mut] name[: Type] = Module, ..;` of the block form.
pub struct LetDecl {
    pub is_mut: bool,
    pub ident: String,
    /// The written type annotation, by its token text.
    pub ty: Option<String>,
    pub modules: Vec<TypeShape>,
}

/// The argument of `init!`: a list of module types, or a block of bindings.
pub enum InitInput {
    Expr(Vec<TypeShape>),
    Block(Vec<LetDecl>),
}

/// One step of a chain: a provider struct importing the first `i + 1`
/// modules, with the lifetimes they carry, and the variable holding it.
pub struct ChainStep {
    pub ident: String,
    pub lifetimes: Vec<String>,
    pub var: String,
}

/// A chain of providers: the empty start provider, its variable, the
/// steps, and the variable that holds the last provider.
pub struct Chain {
    pub init_ident: String,
    pub init_var: String,
    pub steps: Vec<ChainStep>,
    pub last_var: String,
}

/// The lifetimes written in the module types, in order of appearance.
pub open spec fn modules_lifetimes(ms: Seq<TypeShape>) -> Seq<Seq<char>>
    decreases ms.len(),
{
    if ms.len() == 0 {
        Seq::empty()
    } else {
        modules_lifetimes(ms.drop_last()) + type_lifetimes(ms.last())
    }
}

/// The name of step `i` of the chain named `p`.
pub open spec fn step_ident(p: Seq<char>, i: nat) -> Seq<char> {
    "__NjectInitStep_"@ + p + "_"@ + decimal(i)
}

/// The variable of step `i` of the chain named `p`.
pub open spec fn step_var(p: Seq<char>, i: nat) -> Seq<char> {
    "__nject_"@ + p + "_s"@ + decimal(i)
}

/// Whether `c` is the chain named `p` for the modules `ms`.
pub open spec fn chain_of(ms: Seq<TypeShape>, p: Seq<char>, c: Chain) -> bool {
    &&& c.init_ident@ == "__NjectInit_"@ + p
    &&& c.init_var@ == "__nject_init_"@ + p
    &&& c.steps@.len() + 1 == ms.len()
    &&& forall|i: int|
        0 <= i < c.steps@.len() ==> {
            &&& (#[trigger] c.steps@[i]).ident@ == step_ident(p, i as nat)
            &&& c.steps@[i].var@ == step_var(p, i as nat)
            &&& views(c.steps@[i].lifetimes@) == add_unique(
                Seq::empty(),
                modules_lifetimes(ms.subrange(0, i + 1)),
            )
        }
    &&& c.last_var@ == if ms.len() == 1 {
        c.init_var@
    } else {
        step_var(p, (ms.len() - 2) as nat)
    }
}

fn step_lifetimes(modules: &Vec<TypeShape>, count: usize) -> (r: Vec<String>)
    requires
        count <= modules@.len(),
    ensures
        views(r@) == add_unique(Seq::empty(), modules_lifetimes(modules@.subrange(0, count as int))),
{
    let mut r: Vec<String> = Vec::new();
    let mut k: usize = 0;
    assert(views(r@) =~= Seq::<Seq<char>>::empty());
    while k < count
        invariant
            k <= count,
            count <= modules@.len(),
            views(r@) == add_unique(Seq::empty(), modules_lifetimes(modules@.subrange(0, k as int))),
        decreases count - k,
    {
        let ghost pre = modules@.subrange(0, k as int);
        collect_lifetimes_from_type(&modules[k], &mut r);
        proof {
            lemma_add_unique_concat(Seq::empty(), modules_lifetimes(pre), type_lifetimes(modules@[k as int]));
            assert(modules@.subrange(0, k + 1).drop_last() =~= pre);
            assert(modules@.subrange(0, k + 1).last() == modules@[k as int]);
        }
        k = k + 1;
    }
    r
}

/// The chain named `name_prefix` for `modules` (at least one).
pub fn gen_chain(modules: &Vec<TypeShape>, name_prefix: &str) -> (c: Chain)
    requires
        modules@.len() >= 1,
    ensures
        chain_of(modules@, name_prefix@, c),
{
    let init_ident = join("__NjectInit_", name_prefix);
    let init_var = join("__nject_init_", name_prefix);
    let ident_base = join(join("__NjectInitStep_", name_prefix).as_str(), "_");
    let var_base = join(join("__nject_", name_prefix).as_str(), "_s");
    let n = modules.len();
    let mut steps: Vec<ChainStep> = Vec::new();
    let mut i: usize = 0;
    while i < n - 1
        invariant
            n == modules@.len(),
            n >= 1,
            i <= n - 1,
            ident_base@ == "__NjectInitStep_"@ + name_prefix@ + "_"@,
            var_base@ == "__nject_"@ + name_prefix@ + "_s"@,
            steps@.len() == i,
            forall|j: int|
                0 <= j < i ==> {
                    &&& (#[trigger] steps@[j]).ident@ == step_ident(name_prefix@, j as nat)
                    &&& steps@[j].var@ == step_var(name_prefix@, j as nat)
                    &&& views(steps@[j].lifetimes@) == add_unique(
                        Seq::empty(),
                        modules_lifetimes(modules@.subrange(0, j + 1)),
                    )
                },
        decreases n - 1 - i,
    {
        let ident = with_number(ident_base.as_str(), i);
        let var = with_number(var_base.as_str(), i);
        let lifetimes = step_lifetimes(modules, i + 1);
        steps.push(ChainStep { ident, lifetimes, var });
        i = i + 1;
    }
    let last_var = if n == 1 {
        join("__nject_init_", name_prefix)
    } else {
        with_number(var_base.as_str(), n - 2)
    };
    Chain { init_ident, init_var, steps, last_var }
}

/// What `init!` generates: one chain for the list form (named `expr`), or
/// one chain per binding of the block form (named after the binding).
pub enum InitPlan {
    Expr(Chain),
    Block(Vec<Chain>),
}

/// Why `init!` refuses its argument.
pub enum InitError {
    /// The list form names no module.
    NoModules,
    /// The block form holds no binding.
    NoDeclarations,
    /// The binding at this position names no module.
    DeclWithoutModules(usize),
}

/// The plan of `init!` for `input`. The list form needs a module; the block
/// form needs a binding, and each binding a module (the first that has none
/// is reported).
pub fn handle_init(input: &InitInput) -> (r: Result<InitPlan, InitError>)
    ensures
        match *input {
            InitInput::Expr(ms) => if ms@.len() == 0 {
                r matches Err(InitError::NoModules)
            } else {
                r matches Ok(InitPlan::Expr(c)) && chain_of(ms@, "expr"@, c)
            },
            InitInput::Block(ds) => if ds@.len() == 0 {
                r matches Err(InitError::NoDeclarations)
            } else if exists|i: int| 0 <= i < ds@.len() && (#[trigger] ds@[i]).modules@.len() == 0 {
                r matches Err(InitError::DeclWithoutModules(i)) && i < ds@.len() && ds@[i as int].modules@.len()
                    == 0 && forall|j: int| 0 <= j < i ==> (#[trigger] ds@[j]).modules@.len() > 0
            } else {
                r matches Ok(InitPlan::Block(cs)) && cs@.len() == ds@.len() && forall|i: int|
                    0 <= i < ds@.len() ==> chain_of(
                        (#[trigger] ds@[i]).modules@,
                        ds@[i].ident@,
                        cs@[i],
                    )
            },
        },
{
    match input {
        InitInput::Expr(modules) => {
            if modules.len() == 0 {
                return Err(InitError::NoModules);
            }
            Ok(InitPlan::Expr(gen_chain(modules, "expr")))
        },
        InitInput::Block(decls) => {
            if decls.len() == 0 {
                return Err(InitError::NoDeclarations);
            }
            let mut chains: Vec<Chain> = Vec::new();
            let mut i: usize = 0;
            while i < decls.len()
                invariant
                    *input == InitInput::Block(*decls),
                    decls@.len() > 0,
                    i <= decls@.len(),
                    chains@.len() == i,
                    forall|j: int| 0 <= j < i ==> (#[trigger] decls@[j]).modules@.len() > 0,
                    forall|j: int|
                        0 <= j < i ==> chain_of(
                            (#[trigger] decls@[j]).modules@,
                            decls@[j].ident@,
                            chains@[j],
                        ),
                decreases decls@.len() - i,
            {
                let d = &decls[i];
                if d.modules.len() == 0 {
                    return Err(InitError::DeclWithoutModules(i));
                }
                chains.push(gen_chain(&d.modules, d.ident.as_str()));
                i = i + 1;
            }
            Ok(InitPlan::Block(chains))
        },
    }
}

} // verus!
