//! The tree shape every bookmark export gets parsed into, regardless of
//! which browser produced the file, and its mathematical model.
use vstd::prelude::*;

verus! {

/// A single saved link.
#[derive(Debug, PartialEq, Eq)]
pub struct Bookmark {
    pub title: String,
    pub url: String,
    /// Seconds since the Unix epoch, taken from the export's ADD_DATE
    /// attribute when present. Browsers don't always write one.
    pub add_date: Option<i64>,
    /// Seconds since the Unix epoch, from LAST_MODIFIED. Only set when the
    /// export actually recorded an edit; a fresh bookmark has none.
    pub last_modified: Option<i64>,
    /// The favicon, usually a base64 `data:` URI, from the ICON attribute.
    pub icon: Option<String>,
}

/// A folder, holding bookmarks and sub-folders in the order the export
/// listed them.
#[derive(Debug, PartialEq, Eq, Default)]
pub struct Folder {
    pub title: String,
    pub bookmarks: Vec<Bookmark>,
    pub folders: Vec<Folder>,
    /// Seconds since the Unix epoch, from the folder's LAST_MODIFIED
    /// attribute, if the export recorded one.
    pub last_modified: Option<i64>,
}

/// What a `Bookmark` holds, with its strings taken as character sequences.
pub struct BookmarkModel {
    pub title: Seq<char>,
    pub url: Seq<char>,
    pub add_date: Option<i64>,
    pub last_modified: Option<i64>,
    pub icon: Option<Seq<char>>,
}

/// What a `Folder` holds: a finite tree of titled folders with bookmarks.
pub struct FolderModel {
    pub title: Seq<char>,
    pub bookmarks: Seq<BookmarkModel>,
    pub folders: Seq<FolderModel>,
    pub last_modified: Option<i64>,
}

pub open spec fn option_string_view(o: Option<String>) -> Option<Seq<char>> {
    match o {
        Some(s) => Some(s@),
        None => None,
    }
}

impl View for Bookmark {
    type V = BookmarkModel;

    open spec fn view(&self) -> BookmarkModel {
        BookmarkModel {
            title: self.title@,
            url: self.url@,
            add_date: self.add_date,
            last_modified: self.last_modified,
            icon: option_string_view(self.icon),
        }
    }
}

/// The models of a sequence of bookmarks.
pub open spec fn bookmark_models(bs: Seq<Bookmark>) -> Seq<BookmarkModel> {
    bs.map_values(|b: Bookmark| b@)
}

impl Folder {
    /// The model of this folder and, recursively, of everything in it.
    pub open spec fn model(self) -> FolderModel
        decreases self,
    {
        FolderModel {
            title: self.title@,
            bookmarks: bookmark_models(self.bookmarks@),
            folders: Folder::models(self.folders@),
            last_modified: self.last_modified,
        }
    }

    /// The models of a sequence of folders, element by element.
    pub open spec fn models(fs: Seq<Folder>) -> Seq<FolderModel>
        decreases fs,
    {
        if fs.len() == 0 {
            Seq::empty()
        } else {
            Folder::models(fs.drop_last()).push(fs.last().model())
        }
    }
}

impl View for Folder {
    type V = FolderModel;

    open spec fn view(&self) -> FolderModel {
        self.model()
    }
}

impl Folder {
    /// Appending a folder appends its model.
    pub proof fn lemma_models_push(fs: Seq<Folder>, f: Folder)
        ensures
            Folder::models(fs.push(f)) == Folder::models(fs).push(f@),
    {
        assert(fs.push(f).drop_last() =~= fs);
    }

    /// Dropping the last folder drops the last model.
    pub proof fn lemma_models_drop_last(fs: Seq<Folder>)
        requires
            fs.len() > 0,
        ensures
            Folder::models(fs).drop_last() == Folder::models(fs.drop_last()),
            Folder::models(fs).last() == fs.last()@,
            Folder::models(fs).len() == fs.len(),
    {
        Folder::lemma_models_index(fs);
    }

    /// The models of a sequence of folders are the models of its elements.
    pub proof fn lemma_models_index(fs: Seq<Folder>)
        ensures
            Folder::models(fs).len() == fs.len(),
            forall|i: int| 0 <= i < fs.len() ==> #[trigger] Folder::models(fs)[i] == fs[i]@,
        decreases fs.len(),
    {
        if fs.len() > 0 {
            Folder::lemma_models_index(fs.drop_last());
        }
    }
}

/// The model of a folder with one more bookmark at its end.
pub open spec fn with_bookmark(f: FolderModel, b: BookmarkModel) -> FolderModel {
    FolderModel { bookmarks: f.bookmarks.push(b), ..f }
}

/// The model of a folder with one more sub-folder at its end.
pub open spec fn with_folder(f: FolderModel, c: FolderModel) -> FolderModel {
    FolderModel { folders: f.folders.push(c), ..f }
}

/// The model of a folder with the given title and nothing in it.
pub open spec fn empty_folder(title: Seq<char>, last_modified: Option<i64>) -> FolderModel {
    FolderModel { title, bookmarks: Seq::empty(), folders: Seq::empty(), last_modified }
}

impl Folder {
    /// An empty folder with the given title.
    pub fn new(title: String) -> (f: Folder)
        ensures
            f@ == empty_folder(title@, None),
    {
        Folder::empty_with_date(title, None)
    }

    /// An empty folder with the given title and modification time.
    pub(crate) fn empty_with_date(title: String, last_modified: Option<i64>) -> (f: Folder)
        ensures
            f@ == empty_folder(title@, last_modified),
    {
        let f = Folder { title, bookmarks: Vec::new(), folders: Vec::new(), last_modified };
        assert(f@.bookmarks =~= Seq::<BookmarkModel>::empty());
        f
    }

    /// Appends a bookmark.
    pub(crate) fn push_bookmark(&mut self, b: Bookmark)
        ensures
            final(self)@ == with_bookmark(old(self)@, b@),
    {
        self.bookmarks.push(b);
        assert(bookmark_models(self.bookmarks@) =~= bookmark_models(old(self).bookmarks@).push(b@));
    }

    /// Appends a sub-folder.
    pub(crate) fn push_folder(&mut self, c: Folder)
        ensures
            final(self)@ == with_folder(old(self)@, c@),
    {
        proof {
            Folder::lemma_models_push(self.folders@, c);
        }
        self.folders.push(c);
    }
}

fn clone_folders(fs: &Vec<Folder>) -> (r: Vec<Folder>)
    ensures
        Folder::models(r@) == Folder::models(fs@),
    decreases fs@,
{
    let mut r: Vec<Folder> = Vec::new();
    let mut i: usize = 0;
    while i < fs.len()
        invariant
            i <= fs.len(),
            Folder::models(r@) == Folder::models(fs@.take(i as int)),
        decreases fs.len() - i,
    {
        assert(decreases_to!(fs@ => fs@[i as int]));
        let c = fs[i].clone();
        let ghost old_r = r@;
        r.push(c);
        assert(r@.drop_last() == old_r);
        assert(fs@.take(i + 1).drop_last() == fs@.take(i as int));
        i = i + 1;
    }
    assert(fs@.take(fs.len() as int) == fs@);
    r
}

fn clone_bookmarks(bs: &Vec<Bookmark>) -> (r: Vec<Bookmark>)
    ensures
        bookmark_models(r@) == bookmark_models(bs@),
{
    let mut r: Vec<Bookmark> = Vec::new();
    let mut i: usize = 0;
    while i < bs.len()
        invariant
            i <= bs.len(),
            r@.len() == i,
            forall|j: int| 0 <= j < i ==> #[trigger] r@[j]@ == bs@[j]@,
        decreases bs.len() - i,
    {
        r.push(bs[i].clone());
        i = i + 1;
    }
    assert(bookmark_models(r@) =~= bookmark_models(bs@));
    r
}

impl Clone for Bookmark {
    fn clone(&self) -> (r: Self)
        ensures
            r@ == self@,
    {
        Bookmark {
            title: self.title.clone(),
            url: self.url.clone(),
            add_date: self.add_date,
            last_modified: self.last_modified,
            icon: match &self.icon {
                Some(i) => Some(i.clone()),
                None => None,
            },
        }
    }
}

impl Clone for Folder {
    fn clone(&self) -> (r: Self)
        ensures
            r@ == self@,
        decreases self,
    {
        Folder {
            title: self.title.clone(),
            bookmarks: clone_bookmarks(&self.bookmarks),
            folders: clone_folders(&self.folders),
            last_modified: self.last_modified,
        }
    }
}

} // verus!
