use vstd::prelude::*;

verus! {

#[verifier::external_type_specification]
#[verifier::external_body]
pub struct ExIoError(std::io::Error);

/// The ways in which importing from a code-hosting platform can fail.
pub enum Error {
    Io(std::io::Error),
    NotSupported,
}

/// Merge request information, which may be attached to an issue.
pub struct MergeRequest {
    /// The base or target of the merge request.
    pub base: String,
    /// The head or source of the merge request.
    pub head: String,
}

/// One recorded issue.
pub struct Issue {
    pub id: String,
    pub title: String,
    pub description: Option<String>,
    pub merge_request: Option<MergeRequest>,
}

/// One recorded comment of an issue's thread.
pub struct Comment {
    pub issue_id: String,
    pub id: Option<String>,
    pub parent: Option<String>,
    pub text: Option<String>,
}

/// The view of an optional text.
pub open spec fn opt_text(o: Option<String>) -> Option<Seq<char>> {
    match o {
        Some(s) => Some(s@),
        None => None,
    }
}

/// The view of an optional borrowed text.
pub open spec fn opt_str(o: Option<&str>) -> Option<Seq<char>> {
    match o {
        Some(s) => Some(s@),
        None => None,
    }
}

fn owned(o: Option<&str>) -> (r: Option<String>)
    ensures
        opt_text(r) == opt_str(o),
{
    match o {
        Some(s) => Some(s.to_owned()),
        None => None,
    }
}

/// The sink through which a platform's project records its issues and
/// their comments, in the order they are read.
pub struct IssueRecorder {
    pub issues: Vec<Issue>,
    pub comments: Vec<Comment>,
}

impl IssueRecorder {
    /// A recorder that holds nothing yet.
    pub fn new() -> (r: IssueRecorder)
        ensures
            r.issues@.len() == 0,
            r.comments@.len() == 0,
    {
        IssueRecorder { issues: Vec::new(), comments: Vec::new() }
    }

    /// Record a new issue.
    pub fn record_issue(
        &mut self,
        id: &str,
        title: &str,
        description: Option<&str>,
        merge_request: Option<MergeRequest>,
    ) -> (r: Result<(), Error>)
        ensures
            r is Ok,
            final(self).comments@ == old(self).comments@,
            final(self).issues@.len() == old(self).issues@.len() + 1,
            forall|i: int|
                0 <= i < old(self).issues@.len() ==> #[trigger] final(self).issues@[i] == old(
                    self,
                ).issues@[i],
            final(self).issues@.last().id@ == id@,
            final(self).issues@.last().title@ == title@,
            opt_text(final(self).issues@.last().description) == opt_str(description),
            final(self).issues@.last().merge_request == merge_request,
    {
        let issue = Issue {
            id: id.to_owned(),
            title: title.to_owned(),
            description: owned(description),
            merge_request,
        };
        self.issues.push(issue);
        Ok(())
    }

    /// Record a comment in an issue's thread.
    pub fn record_comment(
        &mut self,
        issue_id: &str,
        id: Option<&str>,
        parent: Option<&str>,
        text: Option<&str>,
    ) -> (r: Result<(), Error>)
        ensures
            r is Ok,
            final(self).issues@ == old(self).issues@,
            final(self).comments@.len() == old(self).comments@.len() + 1,
            forall|i: int|
                0 <= i < old(self).comments@.len() ==> #[trigger] final(self).comments@[i] == old(
                    self,
                ).comments@[i],
            final(self).comments@.last().issue_id@ == issue_id@,
            opt_text(final(self).comments@.last().id) == opt_str(id),
            opt_text(final(self).comments@.last().parent) == opt_str(parent),
            opt_text(final(self).comments@.last().text) == opt_str(text),
    {
        let comment = Comment {
            issue_id: issue_id.to_owned(),
            id: owned(id),
            parent: owned(parent),
            text: owned(text),
        };
        self.comments.push(comment);
        Ok(())
    }
}

} // verus!
