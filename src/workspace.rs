//! The session workspace: storage paths and content types. The file system
//! itself is handled by the caller.
use vstd::prelude::*;
use vstd::string::*;
use crate::text::{chars_of, ends_with_str, has_suffix};
use crate::bindings::{alnum_of, char_is_alphanumeric, now_rfc3339, rfc3339_days_from_now};

verus! {

/// The root of the storage volume.
pub const STORAGE_ROOT: &'static str = "/app/storage";

/// The content type for a file name, by its extension.
pub open spec fn content_type_spec(name: Seq<char>) -> Seq<char> {
    if has_suffix(name, ".png"@) {
        "image/png"@
    } else if has_suffix(name, ".jpg"@) || has_suffix(name, ".jpeg"@) {
        "image/jpeg"@
    } else if has_suffix(name, ".csv"@) {
        "text/csv"@
    } else if has_suffix(name, ".json"@) {
        "application/json"@
    } else if has_suffix(name, ".md"@) {
        "text/markdown"@
    } else if has_suffix(name, ".txt"@) {
        "text/plain"@
    } else {
        "application/octet-stream"@
    }
}

/// Namespace of the workspace operations.
pub struct WorkspaceInitializer;

impl WorkspaceInitializer {
    /// Guesses a MIME type from a file name's extension.
    pub fn guess_content_type(filename: &str) -> (r: String)
        ensures
            r@ == content_type_spec(filename@),
    {
        if ends_with_str(filename, ".png") {
            String::from_str("image/png")
        } else if ends_with_str(filename, ".jpg") || ends_with_str(filename, ".jpeg") {
            String::from_str("image/jpeg")
        } else if ends_with_str(filename, ".csv") {
            String::from_str("text/csv")
        } else if ends_with_str(filename, ".json") {
            String::from_str("application/json")
        } else if ends_with_str(filename, ".md") {
            String::from_str("text/markdown")
        } else if ends_with_str(filename, ".txt") {
            String::from_str("text/plain")
        } else {
            String::from_str("application/octet-stream")
        }
    }

    /// The session directory of a run: `{root}/sessions/{run_id}`.
    pub fn session_path(run_id: &str) -> (r: String)
        ensures
            r@ == STORAGE_ROOT@ + "/sessions/"@ + run_id@,
    {
        let mut r = String::from_str(STORAGE_ROOT);
        r.append("/sessions/");
        r.append(run_id);
        r
    }

    /// Where a file a node generated lies in its run's session:
    /// `{root}/sessions/{run_id}/output/{filename}`.
    pub fn session_output_file(run_id: &str, filename: &str) -> (r: String)
        ensures
            r@ == STORAGE_ROOT@ + "/sessions/"@ + run_id@ + "/output/"@ + filename@,
    {
        let mut r = WorkspaceInitializer::session_path(run_id);
        r.append("/output/");
        r.append(filename);
        r
    }

    /// The two places a library file is looked up, in order: the client's
    /// private library, then the public one.
    pub fn library_candidates(client_id: &str, safe_name: &str) -> (r: (String, String))
        ensures
            r.0@ == STORAGE_ROOT@ + "/library/"@ + client_id@ + "/"@ + safe_name@,
            r.1@ == STORAGE_ROOT@ + "/library/public/"@ + safe_name@,
    {
        let mut private = String::from_str(STORAGE_ROOT);
        private.append("/library/");
        private.append(client_id);
        private.append("/");
        private.append(safe_name);
        let mut public = String::from_str(STORAGE_ROOT);
        public.append("/library/public/");
        public.append(safe_name);
        (private, public)
    }
}

/// The days an artifact collection is kept.
pub const ARTIFACT_RETENTION_DAYS: i64 = 7;

/// The files a run produced, with the run they belong to.
#[derive(Clone, Debug)]
pub struct ArtifactMetadata {
    pub run_id: String,
    pub workflow_id: String,
    pub user_directive: String,
    pub created_at: String,
    pub expires_at: String,
    pub artifacts: Vec<ArtifactFile>,
    pub status: String,
}

/// One generated file of an artifact collection.
#[derive(Clone, Debug)]
pub struct ArtifactFile {
    pub filename: String,
    pub agent_id: String,
    pub generated_at: String,
    pub size_bytes: u64,
    pub content_type: String,
}

impl ArtifactMetadata {
    /// A new, active collection with no files.
    pub fn with_times(
        run_id: &str,
        workflow_id: &str,
        user_directive: &str,
        created_at: String,
        expires_at: String,
    ) -> (r: ArtifactMetadata)
        ensures
            r.run_id@ == run_id@,
            r.workflow_id@ == workflow_id@,
            r.user_directive@ == user_directive@,
            r.created_at == created_at,
            r.expires_at == expires_at,
            r.artifacts@.len() == 0,
            r.status@ == "active"@,
    {
        ArtifactMetadata {
            run_id: run_id.to_owned(),
            workflow_id: workflow_id.to_owned(),
            user_directive: user_directive.to_owned(),
            created_at,
            expires_at,
            artifacts: Vec::new(),
            status: String::from_str("active"),
        }
    }

    /// A new, active collection created now, kept for the retention period.
    pub fn create_new_metadata(run_id: &str, workflow_id: &str, user_directive: &str) -> (r:
        ArtifactMetadata)
        ensures
            r.run_id@ == run_id@,
            r.workflow_id@ == workflow_id@,
            r.user_directive@ == user_directive@,
            r.artifacts@.len() == 0,
            r.status@ == "active"@,
    {
        let created = now_rfc3339();
        let expires = rfc3339_days_from_now(ARTIFACT_RETENTION_DAYS);
        ArtifactMetadata::with_times(run_id, workflow_id, user_directive, created, expires)
    }

    /// Records one more file of the collection.
    pub fn add_file(
        &mut self,
        filename: &str,
        agent_id: &str,
        generated_at: String,
        size_bytes: u64,
    )
        ensures
            final(self).artifacts@.len() == old(self).artifacts@.len() + 1,
            final(self).artifacts@.drop_last() == old(self).artifacts@,
            final(self).artifacts@.last().filename@ == filename@,
            final(self).artifacts@.last().agent_id@ == agent_id@,
            final(self).artifacts@.last().generated_at == generated_at,
            final(self).artifacts@.last().size_bytes == size_bytes,
            final(self).artifacts@.last().content_type@ == content_type_spec(filename@),
            final(self).run_id == old(self).run_id,
            final(self).workflow_id == old(self).workflow_id,
            final(self).status == old(self).status,
    {
        let file = ArtifactFile {
            filename: filename.to_owned(),
            agent_id: agent_id.to_owned(),
            generated_at,
            size_bytes,
            content_type: WorkspaceInitializer::guess_content_type(filename),
        };
        let ghost a0 = self.artifacts@;
        self.artifacts.push(file);
        proof {
            assert(self.artifacts@.drop_last() =~= a0);
        }
    }
}

/// A client id may hold letters, digits and dashes only.
pub open spec fn valid_client_id(id: Seq<char>) -> bool {
    forall|i: int| 0 <= i < id.len() ==> alnum_of(#[trigger] id[i]) || id[i] == '-'
}

/// The client a request speaks for.
#[derive(Clone, Debug)]
pub struct ClientSession(pub String);

impl ClientSession {
    /// The session named by a request's client header: `public` where the
    /// header is absent; refused where the id holds anything but letters,
    /// digits and dashes.
    pub fn from_header_value(value: Option<&str>) -> (r: Result<ClientSession, ()>)
        ensures
            value is None ==> (r matches Ok(s) && s.0@ == "public"@),
            value is Some ==> (r is Ok <==> valid_client_id(value->0@)),
            value is Some && r is Ok ==> r->Ok_0.0@ == value->0@,
    {
        match value {
            None => Ok(ClientSession(String::from_str("public"))),
            Some(v) => {
                let cs = chars_of(v);
                let mut i: usize = 0;
                while i < cs.len()
                    invariant
                        value == Some(v),
                        cs@ == v@,
                        i <= cs@.len(),
                        forall|j: int| 0 <= j < i ==> alnum_of(#[trigger] cs@[j]) || cs@[j] == '-',
                    decreases cs@.len() - i,
                {
                    let c = cs[i];
                    if !(char_is_alphanumeric(c) || c == '-') {
                        proof {
                            assert(v@[i as int] == c);
                            assert(!(alnum_of(v@[i as int]) || v@[i as int] == '-'));
                        }
                        return Err(());
                    }
                    i = i + 1;
                }
                Ok(ClientSession(v.to_owned()))
            },
        }
    }
}

} // verus!
