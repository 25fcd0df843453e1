# fastrans

A floating input bar for Chinese-to-English translation: type Chinese (or
pinyin, if the machine has no Chinese IME), see English, press Enter to paste it
into the application that had the focus.

`src/` is the library, verified with Verus: the pinyin dictionary and
conversion, the memory of the user's picks, the polish of the English output,
settings, hotkey specs, the worker's and the updater's decisions, and the state
of the bar itself. `app/` is the program around it: the window, the files, the
network, the clipboard and the translation engine. `tests/` runs the library.

| module | what it holds |
| --- | --- |
| `text`, `rank` | strings as sequences of characters; stable ordering |
| `lattice` | best paths through a word lattice |
| `lexicon` | the pinyin dictionary and the search for words in letters |
| `pinyin` | the analysis of a run of letters: conversion and candidates |
| `picks`, `userdict` | what the user picked, and how it is kept as text |
| `style` | contractions and clean-up of the English output |
| `config`, `hotkey` | settings and hotkey specs |
| `engine`, `update`, `inject`, `autostart` | the decisions around the translator, updates, pasting and launching at login |
| `app` | the bar as a state machine |

Scores are fixed-point logarithms of probabilities, in units of 2^-52.
