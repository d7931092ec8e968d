//! Project-level configuration: tag definitions, edge annotations, display toggles.
use vstd::prelude::*;

use crate::model::EdgeAnnotation;

verus! {

/// A project-level tag definition.
#[derive(Debug, Clone, PartialEq, Eq)]
pub struct TagDef {
    pub name: String,
}

/// Display toggles for the graph canvas.
#[derive(Debug, Clone, Copy, PartialEq, Eq)]
pub struct DisplayConfig {
    pub edge_labels: bool,
    pub edge_colors: bool,
    pub relation_nodes: bool,
}

/// Project-level configuration.
#[derive(Debug, Clone, PartialEq)]
pub struct ProjectConfig {
    /// Labels that edges may carry.
    pub edge_annotations: Vec<EdgeAnnotation>,
    pub display: DisplayConfig,
    pub tag_definitions: Vec<TagDef>,
}

/// The names of the defined tags.
pub open spec fn tag_names(c: ProjectConfig) -> Seq<Seq<char>> {
    c.tag_definitions@.map_values(|t: TagDef| t.name@)
}

/// The defined edge annotation labels.
pub open spec fn annotation_labels(c: ProjectConfig) -> Seq<Seq<char>> {
    c.edge_annotations@.map_values(|a: EdgeAnnotation| a.label@)
}

impl Default for DisplayConfig {
    fn default() -> (r: Self)
        ensures
            r.edge_labels,
            r.edge_colors,
            r.relation_nodes,
    {
        DisplayConfig { edge_labels: true, edge_colors: true, relation_nodes: true }
    }
}

/// The edge annotation labels a new project starts with.
pub open spec fn default_annotation_labels() -> Seq<Seq<char>> {
    seq!["supports"@, "requires"@, "extends"@, "contradicts"@, "exemplifies"@]
}

/// The tags a new project starts with.
pub open spec fn default_tag_names() -> Seq<Seq<char>> {
    seq!["well-established"@, "tentative"@, "speculative"@]
}

impl Default for ProjectConfig {
    fn default() -> (r: Self)
        ensures
            r.display.edge_labels,
            r.display.edge_colors,
            r.display.relation_nodes,
            tag_names(r) == default_tag_names(),
            annotation_labels(r) == default_annotation_labels(),
    {
        let mut tags: Vec<TagDef> = Vec::new();
        tags.push(TagDef { name: String::from_str("well-established") });
        tags.push(TagDef { name: String::from_str("tentative") });
        tags.push(TagDef { name: String::from_str("speculative") });
        let mut anns: Vec<EdgeAnnotation> = Vec::new();
        anns.push(EdgeAnnotation { label: String::from_str("supports") });
        anns.push(EdgeAnnotation { label: String::from_str("requires") });
        anns.push(EdgeAnnotation { label: String::from_str("extends") });
        anns.push(EdgeAnnotation { label: String::from_str("contradicts") });
        anns.push(EdgeAnnotation { label: String::from_str("exemplifies") });
        let r = ProjectConfig {
            edge_annotations: anns,
            display: DisplayConfig::default(),
            tag_definitions: tags,
        };
        assert(tag_names(r) =~= default_tag_names());
        assert(annotation_labels(r) =~= default_annotation_labels());
        r
    }
}

impl ProjectConfig {
    /// A copy of this configuration.
    pub fn copy(&self) -> (r: ProjectConfig)
        ensures
            r.display == self.display,
            tag_names(r) == tag_names(*self),
            annotation_labels(r) == annotation_labels(*self),
    {
        let mut tags: Vec<TagDef> = Vec::new();
        let mut i: usize = 0;
        while i < self.tag_definitions.len()
            invariant
                i <= self.tag_definitions@.len(),
                tags@.len() == i,
                forall|j: int| 0 <= j < i ==> tags@[j].name@ == self.tag_definitions@[j].name@,
            decreases self.tag_definitions@.len() - i,
        {
            tags.push(TagDef { name: crate::text::copy_string(&self.tag_definitions[i].name) });
            i = i + 1;
        }
        let mut anns: Vec<EdgeAnnotation> = Vec::new();
        let mut k: usize = 0;
        while k < self.edge_annotations.len()
            invariant
                k <= self.edge_annotations@.len(),
                anns@.len() == k,
                forall|j: int| 0 <= j < k ==> anns@[j].label@ == self.edge_annotations@[j].label@,
            decreases self.edge_annotations@.len() - k,
        {
            anns.push(self.edge_annotations[k].copy());
            k = k + 1;
        }
        let r = ProjectConfig {
            edge_annotations: anns,
            display: self.display,
            tag_definitions: tags,
        };
        assert(tag_names(r) =~= tag_names(*self));
        assert(annotation_labels(r) =~= annotation_labels(*self));
        r
    }
}

} // verus!
