use std::path::Path;

use res::path::Located;
use res::{
    collect_entries, cp, cp_or_mv, ls, mv, Action, Answer, Collector, Entries, Error, Request,
};

/// A directory tree in memory: each directory with the paths of its children,
/// and the files.
struct Disk {
    dirs: Vec<(String, Vec<String>)>,
    files: Vec<String>,
    unreadable: Vec<String>,
}

fn s(text: &str) -> String {
    text.to_string()
}

fn parent_of(path: &str) -> Option<String> {
    Path::new(path).parent().map(|p| p.to_str().unwrap().to_string())
}

impl Disk {
    fn new() -> Disk {
        Disk { dirs: vec![(s("/"), vec![])], files: vec![], unreadable: vec![] }
    }

    fn is_dir(&self, path: &str) -> bool {
        self.dirs.iter().any(|(d, _)| d == path)
    }

    fn has(&self, path: &str) -> bool {
        self.is_dir(path) || self.files.iter().any(|f| f == path)
    }

    fn enter(&mut self, path: &str) {
        if let Some(parent) = parent_of(path) {
            for (d, children) in self.dirs.iter_mut() {
                if *d == parent && !children.iter().any(|c| c == path) {
                    children.push(s(path));
                }
            }
        }
    }

    fn create_dir_all(&mut self, path: &str) {
        if self.is_dir(path) {
            return;
        }
        if let Some(parent) = parent_of(path) {
            self.create_dir_all(&parent);
        }
        self.dirs.push((s(path), vec![]));
        self.enter(path);
    }

    fn create(&mut self, path: &str) {
        if let Some(parent) = parent_of(path) {
            self.create_dir_all(&parent);
        }
        if !self.files.iter().any(|f| f == path) {
            self.files.push(s(path));
        }
        self.enter(path);
    }

    fn read_dir(&self, path: &str) -> Result<Vec<String>, Error> {
        if self.unreadable.iter().any(|d| d == path) {
            return Err(Error::IoFailure);
        }
        match self.dirs.iter().find(|(d, _)| d == path) {
            Some((_, children)) => Ok(children.clone()),
            None => Err(Error::NotFound),
        }
    }

    fn copy(&mut self, from: &str, to: &str) -> Result<(), Error> {
        if !self.files.iter().any(|f| f == from) {
            return Err(Error::NotFound);
        }
        match parent_of(to) {
            Some(parent) if self.is_dir(&parent) => {
                self.create(to);
                Ok(())
            }
            _ => Err(Error::NotFound),
        }
    }

    fn remove(&mut self, path: &str) -> Result<(), Error> {
        if !self.files.iter().any(|f| f == path) {
            return Err(Error::NotFound);
        }
        self.files.retain(|f| f != path);
        for (_, children) in self.dirs.iter_mut() {
            children.retain(|c| c != path);
        }
        Ok(())
    }
}

/// Answers a collector from the disk until it asks nothing more, and notes
/// what it asked.
fn drive(disk: &Disk, mut collector: Collector, asked: &mut Vec<Request>) -> Result<Entries, Error> {
    loop {
        let request = collector.request();
        let answer = match &request {
            Request::IsDir(path) => Answer::IsDir(disk.is_dir(path)),
            Request::ReadDir(path) => match disk.read_dir(path) {
                Ok(children) => Answer::Children(children),
                Err(e) => Answer::Failed(e),
            },
            Request::Done | Request::Failed(_) => {
                return collector.outcome().unwrap();
            }
        };
        asked.push(request);
        collector = collector.step(answer);
    }
}

fn collect(disk: &Disk, res_type: &str, source: Vec<String>) -> Result<Entries, Error> {
    drive(disk, collect_entries(res_type, source), &mut vec![])
}

fn perform(disk: &mut Disk, plan: Vec<Action>) -> Result<(), Error> {
    for action in plan {
        match action {
            Action::CreateDirAll(dir) => disk.create_dir_all(&dir),
            Action::Copy { from, to } => disk.copy(&from, &to)?,
            Action::Remove(path) => disk.remove(&path)?,
        }
    }
    Ok(())
}

fn list(disk: &Disk, res_type: &str, source: Vec<String>) -> Result<String, Error> {
    let files = collect(disk, res_type, source)?;
    Ok(ls(res_type, &files))
}

fn copy(disk: &mut Disk, res_type: &str, source: Vec<String>, dest: String) -> Result<(), Error> {
    let files = collect(disk, res_type, source)?;
    let plan = cp(&files, &dest, disk.is_dir(&dest))?;
    perform(disk, plan)
}

fn transfer(disk: &mut Disk, res_type: &str, source: Vec<String>, dest: String) -> Result<(), Error> {
    let files = collect(disk, res_type, source)?;
    let plan = mv(&files, &dest, disk.is_dir(&dest))?;
    perform(disk, plan)
}

fn contents(files: &Entries) -> Vec<(String, Vec<String>)> {
    files.names().into_iter().map(|n| (n.clone(), files.paths(&n))).collect()
}

#[test]
fn ls_single_drawable_png() {
    let mut disk = Disk::new();
    disk.create("/source/drawable-mdpi/image.png");

    let result = list(&disk, "drawable", vec![s("/source")]).unwrap();

    assert_eq!(result, "image.png mdpi\n");
}

#[test]
fn ls_single_drawable_xml() {
    let mut disk = Disk::new();
    disk.create("/source/drawable/image.xml");

    let result = list(&disk, "drawable", vec![s("/source")]).unwrap();

    assert_eq!(result, "image.xml\n");
}

#[test]
fn ls_single_layout_xml() {
    let mut disk = Disk::new();
    disk.create("/source/layout/main.xml");

    let result = list(&disk, "layout", vec![s("/source")]).unwrap();

    assert_eq!(result, "main.xml\n");
}

#[test]
fn ls_single_layout_land_xml() {
    let mut disk = Disk::new();
    disk.create("/source/layout-land/main.xml");

    let result = list(&disk, "layout", vec![s("/source")]).unwrap();

    assert_eq!(result, "main.xml land\n");
}

#[test]
fn cp_single_file_dir() {
    let mut disk = Disk::new();
    disk.create("/source/drawable-mdpi/image.png");
    disk.create_dir_all("/dest");

    copy(&mut disk, "drawable", vec![s("/source")], s("/dest")).unwrap();

    assert!(disk.has("/dest/drawable-mdpi/image.png"));
}

#[test]
fn cp_single_file() {
    let mut disk = Disk::new();
    disk.create("/source/drawable-mdpi/image1.png");
    disk.create("/source/drawable-mdpi/image2.png");
    disk.create_dir_all("/dest");

    copy(&mut disk, "drawable", vec![s("/source/image1.png")], s("/dest")).unwrap();

    assert!(disk.has("/source/drawable-mdpi/image1.png"));
    assert!(disk.has("/source/drawable-mdpi/image2.png"));
    assert!(disk.has("/dest/drawable-mdpi/image1.png"));
    assert!(!disk.has("/dest/drawable-mdpi/image2.png"));
}

#[test]
fn cp_single_file_fix_name() {
    let mut disk = Disk::new();
    disk.create("/source/drawable-mdpi/Image1.png");
    disk.create_dir_all("/dest");

    copy(&mut disk, "drawable", vec![s("/source/Image1.png")], s("/dest")).unwrap();

    assert!(disk.has("/source/drawable-mdpi/Image1.png"));
    assert!(disk.has("/dest/drawable-mdpi/image1.png"));
}

#[test]
fn cp_single_file_rename() {
    let mut disk = Disk::new();
    disk.create("/source/drawable-mdpi/image1.png");
    disk.create_dir_all("/dest");

    copy(&mut disk, "drawable", vec![s("/source/image1.png")], s("/dest/image2.png")).unwrap();

    assert!(disk.has("/source/drawable-mdpi/image1.png"));
    assert!(disk.has("/dest/drawable-mdpi/image2.png"));
}

#[test]
fn mv_single_file() {
    let mut disk = Disk::new();
    disk.create("/source/drawable-mdpi/image1.png");
    disk.create("/source/drawable-mdpi/image2.png");
    disk.create_dir_all("/dest");

    transfer(&mut disk, "drawable", vec![s("/source/image1.png")], s("/dest")).unwrap();

    assert!(disk.has("/dest/drawable-mdpi/image1.png"));
    assert!(!disk.has("/dest/drawable-mdpi/image2.png"));
    assert!(!disk.has("/source/drawable-mdpi/image1.png"));
    assert!(disk.has("/source/drawable-mdpi/image2.png"));
}

#[test]
fn collector_asks_in_order() {
    let mut disk = Disk::new();
    disk.create("/a/drawable/x.png");
    disk.create("/a/layout/main.xml");
    disk.create("/a/drawable-hdpi/x.png");
    disk.create("/b/drawable-mdpi/y.xml");
    let mut asked = vec![];

    let files =
        drive(&disk, collect_entries("drawable", vec![s("/a"), s("/b/y.xml")]), &mut asked).unwrap();

    assert_eq!(
        asked,
        vec![
            Request::IsDir(s("/a")),
            Request::ReadDir(s("/a")),
            Request::ReadDir(s("/a/drawable")),
            Request::ReadDir(s("/a/drawable-hdpi")),
            Request::IsDir(s("/b/y.xml")),
            Request::ReadDir(s("/b")),
            Request::ReadDir(s("/b/drawable-mdpi")),
        ]
    );
    assert_eq!(
        contents(&files),
        vec![
            (s("x.png"), vec![s("/a/drawable/x.png"), s("/a/drawable-hdpi/x.png")]),
            (s("y.xml"), vec![s("/b/drawable-mdpi/y.xml")]),
        ]
    );
}

#[test]
fn collector_without_sources_is_done() {
    let collector = collect_entries("drawable", vec![]);
    assert_eq!(collector.request(), Request::Done);
    let files = collector.outcome().unwrap().unwrap();
    assert_eq!(files.len(), 0);
}

#[test]
fn collector_is_unfinished_while_it_asks() {
    let collector = collect_entries("drawable", vec![s("/a")]);
    assert_eq!(collector.request(), Request::IsDir(s("/a")));
    assert!(collector.outcome().is_none());
}

#[test]
fn collector_ignores_an_answer_it_did_not_wait_for() {
    let collector = collect_entries("drawable", vec![s("/a")]);
    let collector = collector.step(Answer::Children(vec![s("/a/drawable")]));
    assert_eq!(collector.request(), Request::IsDir(s("/a")));
    let collector = collector.step(Answer::IsDir(true));
    assert_eq!(collector.request(), Request::ReadDir(s("/a")));
    let collector = collector.step(Answer::IsDir(true));
    assert_eq!(collector.request(), Request::ReadDir(s("/a")));
    let collector = collector.step(Answer::Children(vec![]));
    assert_eq!(collector.request(), Request::Done);
    let collector = collector.step(Answer::Failed(Error::IoFailure));
    assert_eq!(collector.request(), Request::Done);
    assert_eq!(collector.outcome().unwrap().unwrap().len(), 0);
}

#[test]
fn collector_stops_at_a_failure() {
    let collector = collect_entries("drawable", vec![s("/a"), s("/b")]);
    let collector = collector.step(Answer::IsDir(true));
    let collector = collector.step(Answer::Failed(Error::IoFailure));
    assert_eq!(collector.request(), Request::Failed(Error::IoFailure));
    let collector = collector.step(Answer::IsDir(true));
    assert_eq!(collector.request(), Request::Failed(Error::IoFailure));
    assert_eq!(collector.outcome().unwrap().unwrap_err(), Error::IoFailure);
}

#[test]
fn collect_missing_source_is_not_found() {
    let mut disk = Disk::new();
    disk.create("/source/drawable/image.png");
    let r = collect(&disk, "drawable", vec![s("/nowhere/res")]);
    assert_eq!(r.unwrap_err(), Error::NotFound);
    let r = collect(&disk, "drawable", vec![s("/source"), s("/nowhere/x.png")]);
    assert_eq!(r.unwrap_err(), Error::NotFound);
}

#[test]
fn collect_source_without_parent_is_not_found() {
    let disk = Disk::new();
    let mut asked = vec![];
    let r = drive(&disk, collect_entries("drawable", vec![s("")]), &mut asked);
    assert_eq!(r.unwrap_err(), Error::NotFound);
    assert_eq!(asked, vec![Request::IsDir(s(""))]);
}

#[test]
fn collect_unreadable_bucket_is_io_failure() {
    let mut disk = Disk::new();
    disk.create("/source/drawable/image.png");
    disk.create("/source/drawable-mdpi/image.png");
    disk.unreadable.push(s("/source/drawable-mdpi"));
    let r = collect(&disk, "drawable", vec![s("/source")]);
    assert_eq!(r.unwrap_err(), Error::IoFailure);
}

#[test]
fn collect_without_buckets_is_empty() {
    let mut disk = Disk::new();
    disk.create("/source/layout/main.xml");
    disk.create("/source/readme.png");
    let files = collect(&disk, "drawable", vec![s("/source")]).unwrap();
    assert_eq!(files.len(), 0);
    assert_eq!(ls("drawable", &files), "");
}

#[test]
fn collect_takes_resource_files_only() {
    let mut disk = Disk::new();
    disk.create("/source/drawable/a.png");
    disk.create("/source/drawable/b.xml");
    disk.create("/source/drawable/c.jpg");
    disk.create("/source/drawable/d");
    disk.create("/source/drawable/.png");
    disk.create("/source/drawable/e.PNG");
    let files = collect(&disk, "drawable", vec![s("/source")]).unwrap();
    assert_eq!(
        contents(&files),
        vec![
            (s("a.png"), vec![s("/source/drawable/a.png")]),
            (s("b.xml"), vec![s("/source/drawable/b.xml")]),
        ]
    );
}

#[test]
fn collect_groups_by_canonical_name() {
    let mut disk = Disk::new();
    disk.create("/source/drawable-mdpi/My Image.png");
    disk.create("/source/drawable-hdpi/my-image.png");
    disk.create("/source/drawable-hdpi/my_image.png");
    let files = collect(&disk, "drawable", vec![s("/source")]).unwrap();
    assert_eq!(
        contents(&files),
        vec![(
            s("my_image.png"),
            vec![
                s("/source/drawable-mdpi/My Image.png"),
                s("/source/drawable-hdpi/my-image.png"),
                s("/source/drawable-hdpi/my_image.png"),
            ]
        )]
    );
}

#[test]
fn collect_twice_yields_the_same() {
    let mut disk = Disk::new();
    disk.create("/source/drawable-mdpi/b.png");
    disk.create("/source/drawable-mdpi/a.png");
    disk.create("/source/drawable-hdpi/a.png");
    disk.create("/source/drawable/c.xml");
    let first = collect(&disk, "drawable", vec![s("/source")]).unwrap();
    let second = collect(&disk, "drawable", vec![s("/source")]).unwrap();
    assert_eq!(contents(&first), contents(&second));
    assert_eq!(
        contents(&first),
        vec![
            (s("a.png"), vec![s("/source/drawable-mdpi/a.png"), s("/source/drawable-hdpi/a.png")]),
            (s("b.png"), vec![s("/source/drawable-mdpi/b.png")]),
            (s("c.xml"), vec![s("/source/drawable/c.xml")]),
        ]
    );
}

#[test]
fn collect_single_file_source_filters_by_raw_name() {
    let mut disk = Disk::new();
    disk.create("/source/drawable-mdpi/Icon.png");
    disk.create("/source/drawable-mdpi/icon.png");
    disk.create("/source/drawable-hdpi/Icon.png");
    disk.create("/source/drawable-hdpi/other.png");
    disk.create("/source/drawable/Icon.xml");
    disk.create("/source/layout/Icon.png");
    let files = collect(&disk, "drawable", vec![s("/source/Icon.png")]).unwrap();
    assert_eq!(
        contents(&files),
        vec![(
            s("icon.png"),
            vec![s("/source/drawable-mdpi/Icon.png"), s("/source/drawable-hdpi/Icon.png")]
        )]
    );
}

#[test]
fn collect_later_sources_append() {
    let mut disk = Disk::new();
    disk.create("/one/drawable/a.png");
    disk.create("/two/drawable/a.png");
    let files = collect(&disk, "drawable", vec![s("/one"), s("/two"), s("/one")]).unwrap();
    assert_eq!(
        contents(&files),
        vec![(
            s("a.png"),
            vec![s("/one/drawable/a.png"), s("/two/drawable/a.png"), s("/one/drawable/a.png")]
        )]
    );
}

#[test]
fn ls_table_with_columns() {
    let mut files = Entries::new();
    files.add(s("longer_name.png"), s("/r/drawable-hdpi/longer_name.png"));
    files.add(s("a.png"), s("/r/drawable-mdpi/a.png"));
    files.add(s("a.png"), s("/r/drawable-xxhdpi/a.png"));
    files.add(s("b.xml"), s("/r/drawable/b.xml"));
    files.add(s("longer_name.png"), s("/r/drawable-mdpi/longer_name.png"));
    let table = ls("drawable", &files);
    assert_eq!(
        table,
        "a.png           mdpi xxhdpi     \n\
         b.xml                           \n\
         longer_name.png mdpi        hdpi\n"
    );
}

#[test]
fn ls_columns_in_order_of_first_meeting() {
    let mut files = Entries::new();
    files.add(s("b.png"), s("/r/drawable-x/b.png"));
    files.add(s("b.png"), s("/r/drawable-y/b.png"));
    files.add(s("a.png"), s("/r/drawable-y/a.png"));
    assert_eq!(ls("drawable", &files), "a.png y  \nb.png y x\n");
}

#[test]
fn ls_leaves_out_the_unqualified_bucket() {
    let mut files = Entries::new();
    files.add(s("a.png"), s("/r/drawable/a.png"));
    files.add(s("a.png"), s("/r/drawable-/a.png"));
    files.add(s("a.png"), s("a.png"));
    assert_eq!(ls("drawable", &files), "a.png\n");
}

#[test]
fn ls_of_nothing_is_empty() {
    assert_eq!(ls("drawable", &Entries::new()), "");
}

#[test]
fn cp_plan_for_a_directory() {
    let mut files = Entries::new();
    files.add(s("b.xml"), s("/src/drawable/B.xml"));
    files.add(s("a.png"), s("/src/drawable-mdpi/a.png"));
    files.add(s("a.png"), s("/src/drawable-hdpi/a.png"));
    let plan = cp(&files, "/dest", true).unwrap();
    assert_eq!(
        plan,
        vec![
            Action::CreateDirAll(s("/dest/drawable-mdpi")),
            Action::Copy { from: s("/src/drawable-mdpi/a.png"), to: s("/dest/drawable-mdpi/a.png") },
            Action::CreateDirAll(s("/dest/drawable-hdpi")),
            Action::Copy { from: s("/src/drawable-hdpi/a.png"), to: s("/dest/drawable-hdpi/a.png") },
            Action::CreateDirAll(s("/dest/drawable")),
            Action::Copy { from: s("/src/drawable/B.xml"), to: s("/dest/drawable/b.xml") },
        ]
    );
}

#[test]
fn cp_plan_for_a_file_renames() {
    let mut files = Entries::new();
    files.add(s("a.png"), s("/src/drawable-mdpi/a.png"));
    files.add(s("a.png"), s("/src/drawable-hdpi/a.png"));
    let plan = cp(&files, "/dest/new.png", false).unwrap();
    assert_eq!(
        plan,
        vec![
            Action::CreateDirAll(s("/dest/drawable-mdpi")),
            Action::Copy { from: s("/src/drawable-mdpi/a.png"), to: s("/dest/drawable-mdpi/new.png") },
            Action::CreateDirAll(s("/dest/drawable-hdpi")),
            Action::Copy { from: s("/src/drawable-hdpi/a.png"), to: s("/dest/drawable-hdpi/new.png") },
        ]
    );
}

#[test]
fn mv_plan_deletes_each_source_after_its_copy() {
    let mut files = Entries::new();
    files.add(s("a.png"), s("/src/drawable-mdpi/a.png"));
    files.add(s("b.png"), s("/src/drawable-mdpi/b.png"));
    let plan = mv(&files, "/dest", true).unwrap();
    assert_eq!(
        plan,
        vec![
            Action::CreateDirAll(s("/dest/drawable-mdpi")),
            Action::Copy { from: s("/src/drawable-mdpi/a.png"), to: s("/dest/drawable-mdpi/a.png") },
            Action::Remove(s("/src/drawable-mdpi/a.png")),
            Action::CreateDirAll(s("/dest/drawable-mdpi")),
            Action::Copy { from: s("/src/drawable-mdpi/b.png"), to: s("/dest/drawable-mdpi/b.png") },
            Action::Remove(s("/src/drawable-mdpi/b.png")),
        ]
    );
    assert_eq!(cp_or_mv(&files, "/dest", true, true).unwrap(), plan);
    assert_eq!(cp_or_mv(&files, "/dest", true, false).unwrap(), cp(&files, "/dest", true).unwrap());
}

#[test]
fn cp_plan_of_nothing_is_empty() {
    assert_eq!(cp(&Entries::new(), "/dest", true).unwrap(), vec![]);
}

#[test]
fn cp_destination_without_parent_is_not_found() {
    let mut files = Entries::new();
    files.add(s("a.png"), s("/src/drawable-mdpi/a.png"));
    assert_eq!(cp(&files, "", false).unwrap_err(), Error::NotFound);
    assert_eq!(mv(&Entries::new(), "", false).unwrap_err(), Error::NotFound);
}

#[test]
fn cp_file_without_bucket_directory_is_no_file_name() {
    let mut files = Entries::new();
    files.add(s("a.png"), s("/src/drawable-mdpi/a.png"));
    files.add(s("b.png"), s("b.png"));
    assert_eq!(cp(&files, "/dest", true).unwrap_err(), Error::NoFileName);
    assert_eq!(mv(&files, "/dest", true).unwrap_err(), Error::NoFileName);
}

#[test]
fn cp_relative_destination() {
    let mut files = Entries::new();
    files.add(s("a.png"), s("res/drawable-mdpi/a.png"));
    let plan = cp(&files, "out.png", false).unwrap();
    assert_eq!(
        plan,
        vec![
            Action::CreateDirAll(s("drawable-mdpi")),
            Action::Copy { from: s("res/drawable-mdpi/a.png"), to: s("drawable-mdpi/out.png") },
        ]
    );
}

#[test]
fn mv_leaves_siblings_and_other_buckets() {
    let mut disk = Disk::new();
    disk.create("/source/drawable-mdpi/image1.png");
    disk.create("/source/drawable-mdpi/image2.png");
    disk.create("/source/drawable-hdpi/image1.png");
    disk.create("/source/layout/image1.png");

    transfer(&mut disk, "drawable", vec![s("/source/image1.png")], s("/dest/renamed.png")).unwrap();

    assert!(disk.has("/dest/drawable-mdpi/renamed.png"));
    assert!(disk.has("/dest/drawable-hdpi/renamed.png"));
    assert!(!disk.has("/dest/layout/renamed.png"));
    assert!(!disk.has("/source/drawable-mdpi/image1.png"));
    assert!(!disk.has("/source/drawable-hdpi/image1.png"));
    assert!(disk.has("/source/drawable-mdpi/image2.png"));
    assert!(disk.has("/source/layout/image1.png"));
}

#[test]
fn located_holds_directory_and_file() {
    let l = Located { dir: s("/a"), file: Some(s("b.png")) };
    assert_eq!(l.dir, "/a");
    assert_eq!(l.file.unwrap(), "b.png");
}
