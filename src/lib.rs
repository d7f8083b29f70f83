//! Groups compiled contracts by the artifact file each one is written to, identifying
//! destinations case-insensitively so that paths differing only in letter case collide.
mod files;
mod key;
mod laws;

pub use files::{after_inserts, inserted, key_of, valid_groups, MappedArtifactFiles, MappedContract};
pub use key::{lower_of, MappedArtifactFile};
pub use laws::{
    lemma_different_lowercase_paths_stay_apart, lemma_distinct_paths_single_lists,
    lemma_inserts_keep_groups_valid, lemma_same_lowercase_path_collides,
};
