//! The pipeline model: the tree of series and parallel sections that the
//! editor's graph describes.
use vstd::prelude::*;

verus! {

/// What a component stands for in the pipeline, which also decides its title.
#[derive(Clone, Copy, Debug, PartialEq, Eq, Structural)]
pub enum Role {
    /// A pipe or fitting of the editor.
    Element,
    /// One branch of a parallel section.
    Branch,
    /// A parallel section whose branches meet again.
    Junction,
    /// A parallel section whose branches never meet again.
    OpenJunction,
    /// The main line that leaves the pump.
    Main,
}

impl Role {
    /// The title of a component with this role; pipes and fittings are titled by
    /// their parameters instead.
    pub fn title(&self) -> (res: Option<&'static str>)
        ensures
            match *self {
                Role::Element => res is None,
                Role::Branch => res matches Some(t) && t@ == "Ветвь"@,
                Role::Junction => res matches Some(t) && t@ == "Разветвление"@,
                Role::OpenJunction => res matches Some(t) && t@ == "Разветвление (без слияния)"@,
                Role::Main => res matches Some(t) && t@ == "Магистраль"@,
            },
    {
        match self {
            Role::Element => None,
            Role::Branch => Some("Ветвь"),
            Role::Junction => Some("Разветвление"),
            Role::OpenJunction => Some("Разветвление (без слияния)"),
            Role::Main => Some("Магистраль"),
        }
    }
}

/// The shape of a component: a pipe or fitting (by its node id in the editor),
/// or a series or parallel composition of components.
#[derive(Debug, PartialEq, Eq)]
pub enum ElementKind {
    Pipe { node: usize },
    Fitting { node: usize },
    Series(Vec<Component>),
    Parallel(Vec<Component>),
}

/// A part of the pipeline model.
#[derive(Debug, PartialEq, Eq)]
pub struct Component {
    pub role: Role,
    pub kind: ElementKind,
}

/// The mathematical shape of a component.
pub enum SpecKind {
    Pipe { node: usize },
    Fitting { node: usize },
    Series(Seq<SpecComponent>),
    Parallel(Seq<SpecComponent>),
}

/// The mathematical value of a component.
pub struct SpecComponent {
    pub role: Role,
    pub kind: SpecKind,
}

impl Component {
    pub open spec fn view(&self) -> SpecComponent
        decreases self,
    {
        SpecComponent {
            role: self.role,
            kind: match &self.kind {
                ElementKind::Pipe { node } => SpecKind::Pipe { node: *node },
                ElementKind::Fitting { node } => SpecKind::Fitting { node: *node },
                ElementKind::Series(v) => SpecKind::Series(
                    Seq::new(v@.len(), |i: int| if 0 <= i < v@.len() { v@[i].view() } else { arbitrary() }),
                ),
                ElementKind::Parallel(v) => SpecKind::Parallel(
                    Seq::new(v@.len(), |i: int| if 0 <= i < v@.len() { v@[i].view() } else { arbitrary() }),
                ),
            },
        }
    }
}

/// The values of a sequence of components.
pub open spec fn views(v: Seq<Component>) -> Seq<SpecComponent> {
    v.map_values(|c: Component| c@)
}

impl Component {
    /// The kind of the component as the results table names it.
    pub fn kind_name(&self) -> (res: &'static str)
        ensures
            res@ == match self.kind {
                ElementKind::Pipe { .. } => "pipe"@,
                ElementKind::Fitting { .. } => "fitting"@,
                ElementKind::Series(_) => "series"@,
                ElementKind::Parallel(_) => "parallel"@,
            },
    {
        match &self.kind {
            ElementKind::Pipe { .. } => "pipe",
            ElementKind::Fitting { .. } => "fitting",
            ElementKind::Series(_) => "series",
            ElementKind::Parallel(_) => "parallel",
        }
    }
}

/// The value of a series or parallel section is made of the values of its parts.
pub proof fn lemma_view_parts(c: Component)
    ensures
        c@.role == c.role,
        match c.kind {
            ElementKind::Series(v) => c@.kind == SpecKind::Series(views(v@)),
            ElementKind::Parallel(v) => c@.kind == SpecKind::Parallel(views(v@)),
            ElementKind::Pipe { node } => c@.kind == SpecKind::Pipe { node },
            ElementKind::Fitting { node } => c@.kind == SpecKind::Fitting { node },
        },
{
    match c.kind {
        ElementKind::Series(v) => {
            let s = c@.kind->Series_0;
            assert(s =~= views(v@)) by {
                assert forall|i: int| 0 <= i < s.len() implies s[i] == views(v@)[i] by {
                    assert(s[i] == v@[i]@);
                }
            }
        },
        ElementKind::Parallel(v) => {
            let s = c@.kind->Parallel_0;
            assert(s =~= views(v@)) by {
                assert forall|i: int| 0 <= i < s.len() implies s[i] == views(v@)[i] by {
                    assert(s[i] == v@[i]@);
                }
            }
        },
        _ => {},
    }
}

} // verus!
