//! Wiki synchronization glue: platform detection and the configuration
//! a front end needs. The platform transports themselves are not part
//! of this crate; every call against them reports that, as a typed
//! error.

use vstd::prelude::*;
use crate::Error;
use crate::adr::Adr;
use crate::text::{chars_of, contains_chars, contains_seq, string_of};

verus! {

/// Whether wiki features are available in this build.
pub fn is_available() -> (r: bool)
    ensures
        r,
{
    true
}

/// The supported wiki platforms.
#[derive(Debug, Clone, Copy, PartialEq, Eq, Structural)]
pub enum WikiPlatform {
    /// A wiki beside a repository on the github service.
    GitHub,
    /// A wiki beside a repository on a gitlab service.
    GitLab,
}

/// The platform a remote address denotes, by its host text.
pub open spec fn platform_of(url: Seq<char>) -> Option<WikiPlatform> {
    if contains_seq(url, "github.com"@) {
        Some(WikiPlatform::GitHub)
    } else if contains_seq(url, "gitlab.com"@) || contains_seq(url, "gitlab"@) {
        Some(WikiPlatform::GitLab)
    } else {
        None
    }
}

/// Detect the wiki platform from a remote address; an address naming
/// neither service is the typed error.
pub fn detect_platform(remote_url: &str) -> (r: Result<WikiPlatform, Error>)
    ensures
        match r {
            Ok(p) => platform_of(remote_url@) == Some(p),
            Err(e) => platform_of(remote_url@) is None && e is WikiError,
        },
{
    let uv = chars_of(remote_url);
    let gh = chars_of("github.com");
    let glc = chars_of("gitlab.com");
    let gl = chars_of("gitlab");
    if contains_chars(&uv, &gh) {
        Ok(WikiPlatform::GitHub)
    } else if contains_chars(&uv, &glc) || contains_chars(&uv, &gl) {
        Ok(WikiPlatform::GitLab)
    } else {
        Err(
            Error::WikiError {
                message: String::from_str("no wiki platform is known for this remote"),
            },
        )
    }
}

/// Configuration for wiki synchronization.
#[derive(Debug, Clone)]
pub struct WikiConfig {
    /// The platform to talk to.
    pub platform: WikiPlatform,
    /// The repository: owner and name for github, a project path for
    /// gitlab.
    pub repository: String,
    /// An access token, when one is needed.
    pub token: Option<String>,
    /// The address of a self-hosted service.
    pub base_url: Option<String>,
}

impl WikiConfig {
    /// A configuration for a platform and repository.
    pub fn new(platform: WikiPlatform, repository: String) -> (r: WikiConfig)
        ensures
            r.platform == platform,
            r.repository@ == repository@,
            r.token is None,
            r.base_url is None,
    {
        WikiConfig { platform, repository, token: None, base_url: None }
    }

    /// The same configuration with an access token.
    pub fn with_token(self, token: String) -> (r: WikiConfig)
        ensures
            r.platform == self.platform,
            r.repository@ == self.repository@,
            r.token matches Some(t) && t@ == token@,
            r.base_url == self.base_url,
    {
        WikiConfig { token: Some(token), ..self }
    }

    /// The same configuration with a self-hosted address.
    pub fn with_base_url(self, url: String) -> (r: WikiConfig)
        ensures
            r.platform == self.platform,
            r.repository@ == self.repository@,
            r.token == self.token,
            r.base_url matches Some(u) && u@ == url@,
    {
        WikiConfig { base_url: Some(url), ..self }
    }
}

/// A client for a wiki beside a github repository. The transport is
/// not part of this crate: every operation reports so.
#[derive(Debug)]
pub struct GitHubWiki {
    /// The repository owner.
    pub owner: String,
    /// The repository name.
    pub repo: String,
    /// An access token, when the caller supplies one.
    pub token: Option<String>,
}

impl GitHubWiki {
    /// A client for a repository. A front end that holds a token puts
    /// it in afterwards.
    pub fn new(owner: String, repo: String) -> (r: GitHubWiki)
        ensures
            r.owner@ == owner@,
            r.repo@ == repo@,
            r.token is None,
    {
        GitHubWiki { owner, repo, token: None }
    }

    /// Push one record to the wiki; the transport is not part of this
    /// crate, so this reports the typed error.
    pub fn push(&self, adr: &Adr) -> (r: Result<(), Error>)
        ensures
            r matches Err(e) && e is WikiError,
    {
        let _ = adr;
        Err(Self::no_transport())
    }

    /// Pull one record from the wiki; reports the typed error.
    pub fn pull(&self, id: &str) -> (r: Result<Adr, Error>)
        ensures
            r matches Err(e) && e is WikiError,
    {
        let _ = id;
        Err(Self::no_transport())
    }

    /// List the records on the wiki; reports the typed error.
    pub fn list(&self) -> (r: Result<Vec<String>, Error>)
        ensures
            r matches Err(e) && e is WikiError,
    {
        Err(Self::no_transport())
    }

    /// The error every transport call reports.
    fn no_transport() -> (r: Error)
        ensures
            r is WikiError,
    {
        Error::WikiError {
            message: String::from_str("the github wiki transport is not part of this crate"),
        }
    }
}

/// A client for a wiki beside a gitlab project; as with the github
/// client, the transport is not part of this crate.
#[derive(Debug)]
pub struct GitLabWiki {
    /// The project path.
    pub project: String,
    /// An access token, when the caller supplies one.
    pub token: Option<String>,
}

impl GitLabWiki {
    /// A client for a project path.
    pub fn new(project: String) -> (r: GitLabWiki)
        ensures
            r.project@ == project@,
            r.token is None,
    {
        GitLabWiki { project, token: None }
    }

    /// Push one record to the wiki; reports the typed error.
    pub fn push(&self, adr: &Adr) -> (r: Result<(), Error>)
        ensures
            r matches Err(e) && e is WikiError,
    {
        let _ = adr;
        Err(Self::no_transport())
    }

    /// Pull one record from the wiki; reports the typed error.
    pub fn pull(&self, id: &str) -> (r: Result<Adr, Error>)
        ensures
            r matches Err(e) && e is WikiError,
    {
        let _ = id;
        Err(Self::no_transport())
    }

    /// List the records on the wiki; reports the typed error.
    pub fn list(&self) -> (r: Result<Vec<String>, Error>)
        ensures
            r matches Err(e) && e is WikiError,
    {
        Err(Self::no_transport())
    }

    /// The error every transport call reports.
    fn no_transport() -> (r: Error)
        ensures
            r is WikiError,
    {
        Error::WikiError {
            message: String::from_str("the gitlab wiki transport is not part of this crate"),
        }
    }
}

/// The service dispatching on the configured platform.
#[derive(Debug)]
pub struct WikiService {
    /// The configuration the service runs under.
    pub config: WikiConfig,
}

impl WikiService {
    /// A service over a configuration.
    pub fn new(config: WikiConfig) -> (r: WikiService)
        ensures
            r.config.platform == config.platform,
            r.config.repository@ == config.repository@,
    {
        WikiService { config }
    }

    /// Push one record to the configured wiki. A github repository not
    /// of the `owner/name` shape is rejected; past that, the call
    /// reports the missing transport.
    pub fn push(&self, adr: &Adr) -> (r: Result<(), Error>)
        ensures
            r matches Err(e) && e is WikiError,
    {
        match self.config.platform {
            WikiPlatform::GitHub => {
                match self.split_repo() {
                    Some((owner, repo)) => {
                        let wiki = GitHubWiki::new(owner, repo);
                        wiki.push(adr)
                    },
                    None => Err(Self::bad_repo()),
                }
            },
            WikiPlatform::GitLab => {
                let wiki = GitLabWiki::new(self.config.repository.clone());
                wiki.push(adr)
            },
        }
    }

    /// Pull one record from the configured wiki; as with pushing, the
    /// transport reports itself missing.
    pub fn pull(&self, id: &str) -> (r: Result<Adr, Error>)
        ensures
            r matches Err(e) && e is WikiError,
    {
        match self.config.platform {
            WikiPlatform::GitHub => {
                match self.split_repo() {
                    Some((owner, repo)) => {
                        let wiki = GitHubWiki::new(owner, repo);
                        wiki.pull(id)
                    },
                    None => Err(Self::bad_repo()),
                }
            },
            WikiPlatform::GitLab => {
                let wiki = GitLabWiki::new(self.config.repository.clone());
                wiki.pull(id)
            },
        }
    }

    /// Push every record, counting what went through and what failed.
    pub fn sync(&self, adrs: &Vec<Adr>) -> (r: Result<SyncResult, Error>)
        ensures
            r matches Ok(s) && s.pushed == 0 && s.pulled == 0 && s.errors@.len() == adrs@.len(),
    {
        let mut result = SyncResult::default();
        let mut i: usize = 0;
        while i < adrs.len()
            invariant
                i <= adrs@.len(),
                result.pushed == 0,
                result.pulled == 0,
                result.errors@.len() == i,
            decreases adrs@.len() - i,
        {
            match self.push(&adrs[i]) {
                Ok(()) => {
                    proof {
                        assert(false);
                    }
                },
                Err(_) => {
                    result.errors.push(adrs[i].id.clone());
                },
            }
            i = i + 1;
        }
        Ok(result)
    }

    /// Split the configured repository into owner and name.
    fn split_repo(&self) -> (r: Option<(String, String)>)
    {
        let v = chars_of(self.config.repository.as_str());
        let mut slash: Option<usize> = None;
        let mut i: usize = 0;
        let n = v.len();
        while i < n
            invariant
                i <= n,
                n == v@.len(),
                slash matches Some(k) ==> k < n,
            decreases n - i,
        {
            if v[i] == '/' {
                match slash {
                    Some(_) => {
                        return None;
                    },
                    None => {
                        slash = Some(i);
                    },
                }
            }
            i = i + 1;
        }
        match slash {
            Some(k) => {
                if k == 0 || k >= n - 1 {
                    return None;
                }
                let owner = crate::text::slice_range(&v, 0, k);
                let repo = crate::text::slice_range(&v, k + 1, v.len());
                Some((string_of(&owner), string_of(&repo)))
            },
            None => None,
        }
    }

    /// The error for a repository text github cannot address.
    fn bad_repo() -> (r: Error)
        ensures
            r is WikiError,
    {
        Error::WikiError {
            message: String::from_str("a github repository is addressed as owner/name"),
        }
    }
}

/// What a wiki synchronization did.
#[derive(Debug)]
pub struct SyncResult {
    /// How many records were pushed.
    pub pushed: usize,
    /// How many records were pulled.
    pub pulled: usize,
    /// What failed, one record id each.
    pub errors: Vec<String>,
}

impl Default for SyncResult {
    /// An empty result.
    fn default() -> (r: Self)
        ensures
            r.pushed == 0,
            r.pulled == 0,
            r.errors@.len() == 0,
    {
        SyncResult { pushed: 0, pulled: 0, errors: Vec::new() }
    }
}

} // verus!