# chrometester

The logic of ChromeTester, a desktop program that downloads, keeps and launches
several versions of Chrome and Chromium side by side, written in Verus: what
each function does is stated in its contract and proved.

## Layout

`src/` is the verified library.

| Module       | What it decides                                                     |
|--------------|---------------------------------------------------------------------|
| `text`       | trimming, splitting, reading and writing numbers                    |
| `order`      | the order of keys, stable sorting                                   |
| `json`       | JSON values; text is read and written by `serde_json`               |
| `platform`   | the names of this platform at the download sources                  |
| `versions`   | version names, their order, download addresses, installed versions  |
| `names`      | which names a profile may have                                      |
| `proxy`      | the proxy in the Internet options                                   |
| `config`     | the settings: download source, install directory and its history    |
| `profiles`   | the profiles and their arguments                                    |
| `catalog`    | the list of Chrome for Testing versions and its cache               |
| `milestones` | the list of older Chromium milestones and its cache                 |
| `snapshots`  | the search for the snapshot that stands for a milestone             |
| `download`   | the course of a download, from the request to the unpacked archive  |
| `launch`     | which file is run, with which arguments, and where its data goes    |
| `update`     | whether there is a newer release                                    |

Functions called `law_*` state what holds of several functions together: that
a list is sorted in one way only, that a deleted profile leaves the others as
they are, that every search for a snapshot ends, that data of different
profiles is kept apart.

`app/` is the desktop shell around the library: files, network, processes and
the user interface. It takes the lists of versions and milestones that come
with the program from the directory `snapshot` among its resources.

`tests/` runs the library on concrete values.

## What is trusted

The contracts of the functions marked `external_body` and of the
`assume_specification` items are believed: those in `json`, which call
`serde_json`, and three on characters and strings of the standard library in
`text` and `names`.
